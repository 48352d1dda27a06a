//! From sources to batches: sharding, mixing strategies, ordered pipelines and batching.

use vstd::prelude::*;
use vstd::seq_lib::{lemma_multiset_commutative, to_multiset_insert};
use vstd::arithmetic::div_mod::{lemma_fundamental_div_mod, lemma_fundamental_div_mod_converse};
use crate::data::{Batch, ItemSize, Transform};
use crate::error::ConfigError;
use crate::utils::{
    accumulate, concat_all, flattened, join, lemma_flattened_concat, lemma_seq_max, prefix_sum,
    seq_max,
};

verus! {

/// Which items of a stream a process reads: the stream is cut off after
/// `limit` items, the first `skip + fast_forward` of what is left are passed
/// over, and of the rest the process of rank `rank` reads every
/// `world_size`-th item, starting with the `rank`-th.
#[derive(Clone, Copy, Debug, PartialEq, Eq, Structural)]
pub struct ShardPlan {
    pub limit: usize,
    pub skip: usize,
    pub fast_forward: usize,
    pub rank: usize,
    pub world_size: usize,
}

impl ShardPlan {
    /// The rank is one of `world_size` ranks.
    pub open spec fn wf(&self) -> bool {
        self.rank < self.world_size
    }

    /// The index of the first item that is not passed over.
    pub open spec fn base(&self) -> int {
        self.skip + self.fast_forward
    }

    /// The index of the first item that this rank reads, if the stream is long enough.
    pub open spec fn start(&self) -> int {
        self.skip + self.fast_forward + self.rank
    }

    /// The index behind the last item that any rank may read, in a stream of `n` items.
    pub open spec fn end(&self, n: int) -> int {
        if n < self.limit {
            n
        } else {
            self.limit as int
        }
    }

    /// The index of the `k`-th item that this rank reads.
    pub open spec fn index(&self, k: int) -> int {
        self.start() + k * self.world_size
    }

    /// Whether this rank reads the item at index `i` of a stream that is long enough.
    pub open spec fn selects(&self, i: int) -> bool {
        self.start() <= i < self.limit && (i - self.start()) % (self.world_size as int) == 0
    }

    /// The number of items that this rank reads from a stream of `n` items.
    pub open spec fn count(&self, n: int) -> int {
        if self.end(n) <= self.start() {
            0
        } else {
            (self.end(n) - self.start() - 1) / (self.world_size as int) + 1
        }
    }

    /// The indices of the items that this rank reads from a stream of `n` items, in order.
    pub open spec fn selected(&self, n: int) -> Seq<int> {
        Seq::new(self.count(n) as nat, |k: int| self.index(k))
    }

    /// The same plan for another rank.
    pub open spec fn with_rank(&self, rank: int) -> ShardPlan {
        ShardPlan { rank: rank as usize, ..*self }
    }

    /// The `k`-th index is read exactly if it lies before the end.
    pub proof fn lemma_count(&self, n: int, k: int)
        requires
            self.wf(),
            0 <= n,
            0 <= k,
        ensures
            0 <= self.count(n),
            k < self.count(n) <==> self.index(k) < self.end(n),
    {
        let w = self.world_size as int;
        if self.end(n) > self.start() {
            let d = self.end(n) - self.start() - 1;
            let q = d / w;
            lemma_fundamental_div_mod(d, w);
            assert(0 <= q) by (nonlinear_arith)
                requires
                    d == w * q + d % w,
                    0 <= d % w < w,
                    0 <= d,
                    0 < w,
            ;
            if k <= q {
                assert(k * w <= d) by (nonlinear_arith)
                    requires
                        0 <= k <= q,
                        d == w * q + d % w,
                        0 <= d % w,
                        0 < w,
                ;
            } else {
                assert(k * w > d) by (nonlinear_arith)
                    requires
                        k >= q + 1,
                        d == w * q + d % w,
                        d % w < w,
                        0 < w,
                ;
            }
        } else {
            assert(k * w >= 0) by (nonlinear_arith)
                requires
                    0 <= k,
                    0 < w,
            ;
        }
    }

    /// The items that this rank reads from `items`, in their order.
    pub fn select<T>(&self, items: Vec<T>) -> (out: Vec<T>)
        requires
            self.wf(),
        ensures
            out@.len() == self.count(items@.len() as int),
            forall|k: int| 0 <= k < out@.len() ==> 0 <= #[trigger] self.index(k) < items@.len(),
            forall|k: int| 0 <= k < out@.len() ==> #[trigger] out@[k] == items@[self.index(k)],
    {
        let n = items.len();
        let end = if n < self.limit {
            n
        } else {
            self.limit
        };
        let mut next: Option<usize> = match self.skip.checked_add(self.fast_forward) {
            Some(base) => base.checked_add(self.rank),
            None => None,
        };
        let ghost all = items@;
        let mut out: Vec<T> = Vec::new();
        let mut i: usize = 0;
        proof {
            assert(self.index(0) == self.start()) by (nonlinear_arith)
                requires
                    self.index(0) == self.start() + 0 * self.world_size,
            ;
        }
        for item in it: items
            invariant
                self.wf(),
                it.seq() == all,
                all.len() == n,
                end == self.end(n as int),
                i == it.index(),
                i <= n,
                forall|k: int| 0 <= k < out@.len() ==> 0 <= #[trigger] self.index(k) < end,
                forall|k: int| 0 <= k < out@.len() ==> #[trigger] out@[k] == all[self.index(k)],
                match next {
                    Some(x) => x == self.index(out@.len() as int) && (x >= i || x >= end),
                    None => self.index(out@.len() as int) > usize::MAX,
                },
        {
            let take = match next {
                Some(x) => x == i && i < end,
                None => false,
            };
            if take {
                let ghost k = out@.len() as int;
                out.push(item);
                proof {
                    assert(self.index(k + 1) == self.index(k) + self.world_size)
                        by (nonlinear_arith)
                        requires
                            self.index(k + 1) == self.start() + (k + 1) * self.world_size,
                            self.index(k) == self.start() + k * self.world_size,
                    ;
                }
                next = i.checked_add(self.world_size);
            }
            i += 1;
        }
        proof {
            let taken = out@.len() as int;
            self.lemma_count(n as int, taken);
            if taken > 0 {
                self.lemma_count(n as int, taken - 1);
            }
        }
        out
    }

    /// The number of items that is announced for a stream of at least
    /// `min_len` items: those that lie before the limit and behind the skipped
    /// ones, shared out among the ranks.
    pub open spec fn min_items_of(&self, min_len: int) -> int {
        (if self.end(min_len) >= self.skip {
            self.end(min_len) - self.skip
        } else {
            0
        }) / (self.world_size as int)
    }

    /// The number of items that is announced before the first one is read.
    pub fn min_items(&self, min_len: usize) -> (out: usize)
        requires
            self.world_size > 0,
        ensures
            out == self.min_items_of(min_len as int),
    {
        let end = if min_len < self.limit {
            min_len
        } else {
            self.limit
        };
        end.saturating_sub(self.skip) / self.world_size
    }
}


/// Whether some rank reads the item at index `i` under `plan`.
pub open spec fn read_by_some_rank(plan: ShardPlan, i: int) -> bool {
    exists|r: int| 0 <= r < plan.world_size && #[trigger] plan.with_rank(r).selects(i)
}

/// Sharding shares out what lies between the passed-over items and the
/// limit: every index from `base` up to the limit is read by exactly one
/// rank, the one that its distance from `base` leaves as remainder, and no
/// other index is read by any rank.
pub proof fn lemma_ranks_partition(plan: ShardPlan, i: int)
    requires
        plan.world_size > 0,
    ensures
        plan.base() <= i < plan.limit ==> plan.with_rank(
            (i - plan.base()) % (plan.world_size as int),
        ).selects(i),
        forall|r: int|
            0 <= r < plan.world_size && #[trigger] plan.with_rank(r).selects(i) ==> plan.base() <= i
                < plan.limit && r == (i - plan.base()) % (plan.world_size as int),
        read_by_some_rank(plan, i) <==> plan.base() <= i < plan.limit,
{
    let w = plan.world_size as int;
    let d = i - plan.base();
    if plan.base() <= i < plan.limit {
        let r = d % w;
        lemma_fundamental_div_mod(d, w);
        assert(0 <= r < w);
        let shard = plan.with_rank(r);
        assert(shard.start() == plan.base() + r);
        assert(d - r == (d / w) * w + 0) by (nonlinear_arith)
            requires
                d == w * (d / w) + d % w,
                r == d % w,
        ;
        lemma_fundamental_div_mod_converse(d - r, w, d / w, 0);
        assert(shard.selects(i));
    }
    assert forall|r: int| 0 <= r < w && #[trigger] plan.with_rank(r).selects(i) implies plan.base()
        <= i < plan.limit && r == d % w by {
        let shard = plan.with_rank(r);
        assert(shard.start() == plan.base() + r);
        let q = (d - r) / w;
        lemma_fundamental_div_mod(d - r, w);
        assert(d == q * w + r) by (nonlinear_arith)
            requires
                d - r == w * q + (d - r) % w,
                (d - r) % w == 0,
        ;
        lemma_fundamental_div_mod_converse(d, w, q, r);
    }
}

/// Read in turn, the ranks give back the stream between the passed-over
/// items and the end: item `j` of that part is item `j / world_size` of rank
/// `j % world_size`, and every item of every rank is such an item. So each
/// rank keeps the order of the stream, and together the ranks read each item
/// of that part once.
pub proof fn lemma_shards_interleave(plan: ShardPlan, n: int)
    requires
        plan.world_size > 0,
        0 <= n,
    ensures
        forall|j: int|
            0 <= j < plan.end(n) - plan.base() ==> 0 <= j / (plan.world_size as int)
                < (#[trigger] plan.with_rank(j % (plan.world_size as int))).count(n),
        forall|j: int|
            0 <= j < plan.end(n) - plan.base() ==> (#[trigger] plan.with_rank(
                j % (plan.world_size as int),
            )).index(j / (plan.world_size as int)) == plan.base() + j,
        forall|r: int, k: int|
            0 <= r < plan.world_size && 0 <= k < plan.with_rank(r).count(n) ==> plan.base()
                <= #[trigger] plan.with_rank(r).index(k) < plan.end(n),
        forall|r: int, k: int|
            0 <= r < plan.world_size && 0 <= k < plan.with_rank(r).count(n) ==> #[trigger] plan.with_rank(
                r,
            ).index(k) == plan.base() + r + k * plan.world_size,
{
    let w = plan.world_size as int;
    assert forall|j: int| 0 <= j < plan.end(n) - plan.base() implies 0 <= j / w < (
    #[trigger] plan.with_rank(j % w)).count(n) && plan.with_rank(j % w).index(j / w) == plan.base()
        + j by {
        lemma_fundamental_div_mod(j, w);
        let r = j % w;
        let k = j / w;
        assert(0 <= k) by (nonlinear_arith)
            requires
                j == w * k + r,
                0 <= r < w,
                0 <= j,
                0 < w,
        ;
        let shard = plan.with_rank(r);
        assert(shard.start() == plan.base() + r);
        assert(shard.index(k) == plan.base() + j) by (nonlinear_arith)
            requires
                shard.index(k) == shard.start() + k * w,
                shard.start() == plan.base() + r,
                j == w * k + r,
        ;
        shard.lemma_count(n, k);
    }
    assert forall|r: int, k: int|
        0 <= r < w && 0 <= k < plan.with_rank(r).count(n) implies plan.base()
        <= #[trigger] plan.with_rank(r).index(k) < plan.end(n) && plan.with_rank(r).index(k)
        == plan.base() + r + k * w by {
        let shard = plan.with_rank(r);
        assert(shard.start() == plan.base() + r);
        shard.lemma_count(n, k);
        assert(k * w >= 0) by (nonlinear_arith)
            requires
                0 <= k,
                0 < w,
        ;
    }
}

/// Whether the ranks together read exactly the window of `limit` items
/// behind the first `skip` of a stream of `n` items.
pub open spec fn reads_skip_limit_window(plan: ShardPlan, n: int) -> bool {
    forall|i: int|
        0 <= i < n ==> (#[trigger] read_by_some_rank(plan, i) <==> plan.skip <= i < plan.skip
            + plan.limit)
}

/// The streams on which the limit, which counts from the start of the
/// stream, cuts where a limit counted from the first item read would: nothing
/// is fast-forwarded, and either nothing is skipped or the stream ends before
/// the limit; or there is nothing to read either way.
pub open spec fn limit_counts_from_skip(plan: ShardPlan, n: int) -> bool {
    ||| plan.fast_forward == 0 && (plan.skip == 0 || n <= plan.limit)
    ||| plan.base() >= plan.end(n) && (plan.skip >= n || plan.limit == 0)
}

/// The ranks together read the window of `limit` items behind the first
/// `skip` exactly on the streams of `limit_counts_from_skip`: on every other
/// stream the limit, counted from the start of the stream, ends the reading
/// early, or the fast-forwarded items are missing.
pub proof fn lemma_skip_limit_window(plan: ShardPlan, n: int)
    requires
        plan.world_size > 0,
        0 <= n,
    ensures
        reads_skip_limit_window(plan, n) <==> limit_counts_from_skip(plan, n),
{
    if limit_counts_from_skip(plan, n) {
        assert forall|i: int| 0 <= i < n implies (#[trigger] read_by_some_rank(plan, i)
            <==> plan.skip <= i < plan.skip + plan.limit) by {
            lemma_ranks_partition(plan, i);
        }
    } else {
        // an index that is in one of the two ranges and not in the other
        let i: int = if plan.base() < plan.end(n) && (plan.skip >= n || plan.limit == 0) {
            plan.base()
        } else if plan.fast_forward > 0 || plan.base() >= plan.end(n) {
            plan.skip as int
        } else {
            plan.limit as int
        };
        lemma_ranks_partition(plan, i);
        assert(0 <= i < n);
        assert(!(read_by_some_rank(plan, i) <==> plan.skip <= i < plan.skip + plan.limit));
    }
}


/// `s` without its first `a` items, and nothing if it has fewer.
pub open spec fn dropped(s: Seq<int>, a: int) -> Seq<int> {
    if 0 <= a <= s.len() {
        s.subrange(a, s.len() as int)
    } else {
        Seq::empty()
    }
}

/// `plan` with another skip and limit.
pub open spec fn with_skip_limit(plan: ShardPlan, skip: int, limit: int) -> ShardPlan {
    ShardPlan { skip: skip as usize, limit: limit as usize, ..plan }
}

/// The streams of `n` items on which skipping `a` items under a limit of
/// `b` reads what dropping the first `a` items read under a limit of `a + b`
/// without a skip would leave: nothing is skipped; or there is one rank, and
/// the stream ends before the limit `b` or is cut at the same place; or both
/// read nothing.
pub open spec fn skip_limit_agree(plan: ShardPlan, a: int, b: int, n: int) -> bool {
    let first = with_skip_limit(plan, a, b);
    let second = with_skip_limit(plan, 0, a + b);
    ||| a == 0
    ||| plan.world_size == 1 && first.end(n) == second.end(n)
    ||| first.start() >= first.end(n) && second.index(a) >= second.end(n)
}

proof fn lemma_count_single_rank(plan: ShardPlan, n: int)
    requires
        plan.wf(),
        plan.world_size == 1,
        0 <= n,
    ensures
        plan.count(n) == (if plan.end(n) > plan.start() {
            plan.end(n) - plan.start()
        } else {
            0
        }),
{
    let k = plan.end(n) - plan.start();
    if k > 0 {
        plan.lemma_count(n, k);
        plan.lemma_count(n, k - 1);
    } else {
        plan.lemma_count(n, 0);
    }
}

/// Skipping `a` items under a limit of `b` reads the same items as reading
/// under a limit of `a + b` without a skip and dropping the first `a` of
/// them, exactly on the streams of `skip_limit_agree`. The limit counts from
/// the start of the stream, so on a longer stream the first reading ends
/// `a` items earlier; and with several ranks, dropping `a` items of one
/// rank passes over `a * world_size` items of the stream.
pub proof fn lemma_skip_limit(plan: ShardPlan, a: usize, b: usize, n: int)
    requires
        plan.wf(),
        0 <= n,
        a + b <= usize::MAX,
    ensures
        with_skip_limit(plan, a as int, b as int).selected(n) == dropped(
            with_skip_limit(plan, 0, a + b).selected(n),
            a as int,
        ) <==> skip_limit_agree(plan, a as int, b as int, n),
{
    let first = with_skip_limit(plan, a as int, b as int);
    let second = with_skip_limit(plan, 0, a + b);
    let w = plan.world_size as int;
    let lhs = first.selected(n);
    let rhs = dropped(second.selected(n), a as int);
    first.lemma_count(n, 0);
    second.lemma_count(n, 0);
    second.lemma_count(n, a as int);
    assert(first.index(0) == first.start()) by (nonlinear_arith)
        requires
            first.index(0) == first.start() + 0 * w,
    ;
    assert(second.index(a as int) == second.start() + a * w);
    assert(a * w >= a) by (nonlinear_arith)
        requires
            a >= 0,
            w >= 1,
    ;
    if a == 0 {
        assert(first == second);
        assert(lhs =~= rhs);
    } else if w == 1 && first.end(n) == second.end(n) {
        lemma_count_single_rank(first, n);
        lemma_count_single_rank(second, n);
        assert(lhs.len() == rhs.len());
        assert forall|k: int| 0 <= k < lhs.len() implies lhs[k] == rhs[k] by {
            assert(first.index(k) == second.index(a + k)) by (nonlinear_arith)
                requires
                    first.index(k) == first.start() + k * w,
                    second.index(a + k) == second.start() + (a + k) * w,
                    first.start() == second.start() + a,
                    w == 1,
            ;
        }
        assert(lhs =~= rhs);
    } else if first.start() >= first.end(n) && second.index(a as int) >= second.end(n) {
        assert(lhs =~= rhs);
    } else {
        if first.count(n) == 0 {
            assert(rhs.len() > 0);
        } else if a >= second.count(n) {
            assert(rhs.len() == 0);
        } else if w >= 2 {
            assert(a * w >= 2 * a) by (nonlinear_arith)
                requires
                    a >= 0,
                    w >= 2,
            ;
            assert(lhs[0] == first.index(0));
            assert(rhs[0] == second.index(a as int));
            assert(lhs[0] != rhs[0]);
        } else {
            lemma_count_single_rank(first, n);
            lemma_count_single_rank(second, n);
            assert(lhs.len() != rhs.len());
        }
        assert(lhs != rhs);
    }
}


/// What the limit of a batch counts.
#[derive(Clone, Copy, Debug, PartialEq, Eq, Structural)]
pub enum BatchLimitType {
    /// The number of items.
    BatchSize,
    /// The number of cells of the padded batch: the number of items times
    /// the size of the largest of them.
    TokenCount,
}

/// The sizes of `items`.
pub open spec fn sizes_of<T: ItemSize>(items: Seq<T>) -> Seq<nat> {
    Seq::new(items.len(), |i: int| items[i].spec_size())
}

/// What a batch of `count` items, the largest of size `max_size`, costs under the limit.
pub open spec fn batch_cost(limit_type: BatchLimitType, count: nat, max_size: nat) -> nat {
    match limit_type {
        BatchLimitType::BatchSize => count,
        BatchLimitType::TokenCount => max_size * count,
    }
}

/// Whether a batch of `count` items, the largest of size `max_size`, stays
/// within `limit` when an item of size `size` joins it.
pub open spec fn admits(
    limit_type: BatchLimitType,
    limit: nat,
    count: nat,
    max_size: nat,
    size: nat,
) -> bool {
    batch_cost(
        limit_type,
        count + 1,
        if size >= max_size {
            size
        } else {
            max_size
        },
    ) <= limit
}

/// Where a scan over items stands: the lengths of the batches that are
/// closed, and the number of items and the largest size of the open batch.
pub struct ScanState {
    pub closed: Seq<nat>,
    pub count: nat,
    pub max_size: nat,
}

/// The scan over items of the given sizes, from left to right: an item joins
/// the open batch unless that batch holds an item already and would exceed
/// the limit with the new one; then the open batch is closed and the item
/// starts the next one.
pub open spec fn scan(sizes: Seq<nat>, limit_type: BatchLimitType, limit: nat) -> ScanState
    decreases sizes.len(),
{
    if sizes.len() == 0 {
        ScanState { closed: Seq::empty(), count: 0, max_size: 0 }
    } else {
        let before = scan(sizes.drop_last(), limit_type, limit);
        let size = sizes.last();
        if before.count > 0 && !admits(limit_type, limit, before.count, before.max_size, size) {
            ScanState { closed: before.closed.push(before.count), count: 1, max_size: size }
        } else {
            ScanState {
                closed: before.closed,
                count: before.count + 1,
                max_size: if size >= before.max_size {
                    size
                } else {
                    before.max_size
                },
            }
        }
    }
}

/// The lengths of the batches into which items of the given sizes are grouped.
pub open spec fn batch_lengths(sizes: Seq<nat>, limit_type: BatchLimitType, limit: nat) -> Seq<nat> {
    let end = scan(sizes, limit_type, limit);
    if end.count > 0 {
        end.closed.push(end.count)
    } else {
        end.closed
    }
}

/// The items of each batch.
pub open spec fn batch_views<T>(batches: Seq<Batch<T>>) -> Seq<Seq<T>> {
    Seq::new(batches.len(), |b: int| batches[b]@)
}

/// The length of each group.
pub open spec fn group_lengths<T>(groups: Seq<Seq<T>>) -> Seq<nat> {
    Seq::new(groups.len(), |b: int| groups[b].len())
}

/// A batch is within the limit: it holds an item, and it holds a single
/// item or costs no more than the limit.
pub open spec fn within_limit<T: ItemSize>(
    batch: Seq<T>,
    limit_type: BatchLimitType,
    limit: nat,
) -> bool {
    &&& batch.len() >= 1
    &&& batch.len() == 1 || batch_cost(limit_type, batch.len(), seq_max(sizes_of(batch))) <= limit
}

/// Decides `admits`.
pub fn admits_item(
    limit_type: BatchLimitType,
    limit: usize,
    count: usize,
    max_size: usize,
    size: usize,
) -> (ok: bool)
    requires
        count < usize::MAX,
    ensures
        ok == admits(limit_type, limit as nat, count as nat, max_size as nat, size as nat),
{
    match limit_type {
        BatchLimitType::BatchSize => count < limit,
        BatchLimitType::TokenCount => {
            let largest = if size >= max_size {
                size
            } else {
                max_size
            };
            match largest.checked_mul(count + 1) {
                Some(cost) => cost <= limit,
                None => false,
            }
        },
    }
}

/// Groups `items` into batches by one scan from left to right.
pub fn split_batches<T: ItemSize>(items: Vec<T>, limit_type: BatchLimitType, limit: usize) -> (out:
    Vec<Batch<T>>)
    ensures
        group_lengths(batch_views(out@)) == batch_lengths(
            sizes_of(items@),
            limit_type,
            limit as nat,
        ),
        flattened(batch_views(out@)) == items@,
        forall|b: int|
            0 <= b < out@.len() ==> within_limit(#[trigger] out@[b]@, limit_type, limit as nat),
{
    let ghost all = items@;
    let ghost sizes = sizes_of(all);
    let n = items.len();
    let mut batches: Vec<Batch<T>> = Vec::new();
    let mut current: Vec<T> = Vec::new();
    let mut max_size: usize = 0;
    let mut i: usize = 0;
    proof {
        assert(sizes.take(0) =~= Seq::<nat>::empty());
        assert(group_lengths(batch_views(batches@)) =~= Seq::<nat>::empty());
        assert(flattened(batch_views(batches@)) + current@ =~= all.take(0));
    }
    for item in it: items
        invariant
            it.seq() == all,
            sizes == sizes_of(all),
            i == it.index(),
            all.len() == n,
            i <= n,
            group_lengths(batch_views(batches@)) == scan(
                sizes.take(i as int),
                limit_type,
                limit as nat,
            ).closed,
            current@.len() == scan(sizes.take(i as int), limit_type, limit as nat).count,
            max_size == scan(sizes.take(i as int), limit_type, limit as nat).max_size,
            current@.len() <= i,
            flattened(batch_views(batches@)) + current@ == all.take(i as int),
            forall|b: int|
                0 <= b < batches@.len() ==> within_limit(
                    #[trigger] batches@[b]@,
                    limit_type,
                    limit as nat,
                ),
            current@.len() > 0 ==> max_size == seq_max(sizes_of(current@)),
            current@.len() == 0 ==> max_size == 0,
            current@.len() > 1 ==> batch_cost(limit_type, current@.len(), max_size as nat)
                <= limit,
    {
        let size = item.size();
        proof {
            let next = sizes.take(i as int + 1);
            assert(next.drop_last() =~= sizes.take(i as int));
            assert(next.last() == size as nat);
            assert(all.take(i as int + 1) =~= all.take(i as int).push(item));
        }
        if current.len() > 0 && !admits_item(limit_type, limit, current.len(), max_size, size) {
            let ghost before = batch_views(batches@);
            let ghost closed = current@;
            batches.push(Batch::new(current));
            current = Vec::new();
            current.push(item);
            max_size = size;
            proof {
                let after = batch_views(batches@);
                assert(after =~= before.push(closed));
                assert(after.drop_last() =~= before);
                assert(group_lengths(after) =~= group_lengths(before).push(closed.len()));
                assert(flattened(after) + current@ =~= all.take(i as int + 1));
                assert(sizes_of(current@).drop_last() =~= Seq::<nat>::empty());
                assert(sizes_of(current@).last() == size as nat);
                assert(seq_max(Seq::<nat>::empty()) == 0);
                assert(max_size == seq_max(sizes_of(current@)));
            }
        } else {
            let ghost old_sizes = sizes_of(current@);
            current.push(item);
            if size >= max_size {
                max_size = size;
            }
            proof {
                assert(flattened(batch_views(batches@)) + current@ =~= all.take(i as int + 1));
                assert(sizes_of(current@).drop_last() =~= old_sizes);
                assert(sizes_of(current@).last() == size as nat);
                assert(seq_max(Seq::<nat>::empty()) == 0);
                if old_sizes.len() == 0 {
                    assert(old_sizes =~= Seq::<nat>::empty());
                }
                assert(max_size == seq_max(sizes_of(current@)));
            }
        }
        i += 1;
    }
    proof {
        assert(sizes.take(all.len() as int) =~= sizes);
        assert(all.take(all.len() as int) =~= all);
    }
    if current.len() > 0 {
        let ghost before = batch_views(batches@);
        let ghost closed = current@;
        batches.push(Batch::new(current));
        proof {
            let after = batch_views(batches@);
            assert(after =~= before.push(closed));
            assert(after.drop_last() =~= before);
            assert(group_lengths(after) =~= group_lengths(before).push(closed.len()));
        }
    } else {
        proof {
            assert(flattened(batch_views(batches@)) + current@ =~= flattened(
                batch_views(batches@),
            ));
        }
    }
    batches
}


/// Whether the sizes never decrease from one item to the next.
pub open spec fn ascending(sizes: Seq<nat>) -> bool {
    forall|i: int, j: int| 0 <= i <= j < sizes.len() ==> sizes[i] <= sizes[j]
}

/// Where an item of size `size` goes into items of the given ascending
/// sizes: behind the last item that is not larger, so behind every item of
/// its own size.
pub open spec fn insert_position(sizes: Seq<nat>, size: nat) -> nat
    decreases sizes.len(),
{
    if sizes.len() > 0 && sizes.last() > size {
        insert_position(sizes.drop_last(), size)
    } else {
        sizes.len()
    }
}

/// `items` in ascending order of size, items of one size in the order in
/// which they came: each item in turn is put behind the items that came
/// before it and are not larger.
pub open spec fn sorted_by_size<T: ItemSize>(items: Seq<T>) -> Seq<T>
    decreases items.len(),
{
    if items.len() == 0 {
        Seq::empty()
    } else {
        let before = sorted_by_size(items.drop_last());
        before.insert(
            insert_position(sizes_of(before), items.last().spec_size()) as int,
            items.last(),
        )
    }
}

proof fn lemma_insert_position(sizes: Seq<nat>, size: nat)
    requires
        ascending(sizes),
    ensures
        insert_position(sizes, size) <= sizes.len(),
        forall|i: int| 0 <= i < insert_position(sizes, size) ==> sizes[i] <= size,
        forall|i: int| insert_position(sizes, size) <= i < sizes.len() ==> sizes[i] > size,
    decreases sizes.len(),
{
    if sizes.len() > 0 && sizes.last() > size {
        let front = sizes.drop_last();
        assert forall|i: int, j: int| 0 <= i <= j < front.len() implies front[i] <= front[j] by {
            assert(front[i] == sizes[i] && front[j] == sizes[j]);
        }
        lemma_insert_position(front, size);
        assert forall|i: int| 0 <= i < insert_position(sizes, size) implies sizes[i] <= size by {
            assert(front[i] == sizes[i]);
        }
        assert forall|i: int| insert_position(sizes, size) <= i < sizes.len() implies sizes[i]
            > size by {
            if i < front.len() {
                assert(front[i] == sizes[i]);
            }
        }
    } else {
        assert forall|i: int| 0 <= i < sizes.len() implies sizes[i] <= size by {
            assert(sizes[i] <= sizes[sizes.len() - 1]);
        }
    }
}

/// Sorting keeps the items, each as often as it occurs, and puts them in
/// ascending order of size.
pub proof fn lemma_sorted_by_size<T: ItemSize>(items: Seq<T>)
    ensures
        sorted_by_size(items).len() == items.len(),
        sorted_by_size(items).to_multiset() == items.to_multiset(),
        ascending(sizes_of(sorted_by_size(items))),
    decreases items.len(),
{
    broadcast use vstd::seq_lib::group_to_multiset_ensures;

    if items.len() == 0 {
        assert(items =~= Seq::<T>::empty());
    } else {
        let front = items.drop_last();
        let item = items.last();
        lemma_sorted_by_size(front);
        let before = sorted_by_size(front);
        let p = insert_position(sizes_of(before), item.spec_size()) as int;
        lemma_insert_position(sizes_of(before), item.spec_size());
        let after = before.insert(p, item);
        to_multiset_insert(before, p, item);
        assert(items =~= front.push(item));
        assert(items.to_multiset() =~= front.to_multiset().insert(item));
        let sizes = sizes_of(after);
        assert forall|i: int, j: int| 0 <= i <= j < sizes.len() implies sizes[i] <= sizes[j] by {
            let a = if i < p {
                i
            } else {
                i - 1
            };
            let b = if j < p {
                j
            } else {
                j - 1
            };
            if i != p {
                assert(sizes[i] == sizes_of(before)[a]);
            }
            if j != p {
                assert(sizes[j] == sizes_of(before)[b]);
            }
            if i != p && j != p {
                assert(sizes_of(before)[a] <= sizes_of(before)[b]);
            }
        }
    }
}

/// Sorts `items` by size, keeping the order of items of one size.
pub fn sort_by_size<T: ItemSize>(items: Vec<T>) -> (out: Vec<T>)
    ensures
        out@ == sorted_by_size(items@),
        out@.len() == items@.len(),
        out@.to_multiset() == items@.to_multiset(),
        ascending(sizes_of(out@)),
{
    let ghost all = items@;
    let mut out: Vec<T> = Vec::new();
    proof {
        assert(all.take(0) =~= Seq::<T>::empty());
    }
    for item in it: items
        invariant
            it.seq() == all,
            out@ == sorted_by_size(all.take(it.index() as int)),
    {
        let size = item.size();
        let mut position: usize = out.len();
        proof {
            let next = all.take(it.index() as int + 1);
            assert(next.drop_last() =~= all.take(it.index() as int));
            assert(next.last() == item);
            assert(sizes_of(out@).take(out@.len() as int) =~= sizes_of(out@));
        }
        while position > 0 && out[position - 1].size() > size
            invariant
                position <= out@.len(),
                insert_position(sizes_of(out@), size as nat) == insert_position(
                    sizes_of(out@).take(position as int),
                    size as nat,
                ),
            decreases position,
        {
            proof {
                let upto = sizes_of(out@).take(position as int);
                assert(upto.last() == out@[position - 1].spec_size());
                assert(upto.drop_last() =~= sizes_of(out@).take(position - 1));
            }
            position -= 1;
        }
        proof {
            let upto = sizes_of(out@).take(position as int);
            if position > 0 {
                assert(upto.last() == out@[position - 1].spec_size());
            }
            assert(insert_position(upto, size as nat) == position);
        }
        out.insert(position, item);
    }
    proof {
        assert(all.take(all.len() as int) =~= all);
        lemma_sorted_by_size(all);
    }
    out
}


/// A seeded generator of pseudo-random numbers: a counter that advances by
/// a fixed odd step, and a mixing of its bits for each number drawn.
#[derive(Clone, Copy, Debug, PartialEq, Eq, Structural)]
pub struct Rng {
    pub state: u64,
}

/// The state that follows `state`.
#[verifier::opaque]
pub open spec fn next_state(state: u64) -> u64 {
    state.wrapping_add(0x9E37_79B9_7F4A_7C15u64)
}

/// The number that a state yields.
#[verifier::opaque]
pub open spec fn mixed(state: u64) -> u64 {
    let a = (state ^ (state >> 30u64)).wrapping_mul(0xBF58_476D_1CE4_E5B9u64);
    let b = (a ^ (a >> 27u64)).wrapping_mul(0x94D0_49BB_1331_11EBu64);
    b ^ (b >> 31u64)
}

/// The state after `steps` numbers were drawn.
pub open spec fn state_after(state: u64, steps: nat) -> u64
    decreases steps,
{
    if steps == 0 {
        state
    } else {
        next_state(state_after(state, (steps - 1) as nat))
    }
}

/// The first number drawn is the one that the next state yields.
pub proof fn lemma_first_draw(state: u64)
    ensures
        drawn(state, 1) == mixed(next_state(state)),
{
    reveal_with_fuel(state_after, 2);
}

/// The `k`-th number drawn from `state`, counting from 1.
pub open spec fn drawn(state: u64, k: nat) -> u64 {
    mixed(state_after(state, k))
}

impl Rng {
    /// A generator that starts from `seed`.
    pub fn new(seed: u64) -> (out: Self)
        ensures
            out.state == seed,
    {
        Rng { state: seed }
    }

    /// Draws the next number.
    pub fn next_u64(&mut self) -> (out: u64)
        ensures
            final(self).state == next_state(old(self).state),
            out == mixed(final(self).state),
    {
        proof {
            reveal(next_state);
            reveal(mixed);
        }
        self.state = self.state.wrapping_add(0x9E37_79B9_7F4A_7C15u64);
        let a = (self.state ^ (self.state >> 30u64)).wrapping_mul(0xBF58_476D_1CE4_E5B9u64);
        let b = (a ^ (a >> 27u64)).wrapping_mul(0x94D0_49BB_1331_11EBu64);
        b ^ (b >> 31u64)
    }

    /// Draws a number below `bound`.
    pub fn below(&mut self, bound: usize) -> (out: usize)
        requires
            bound > 0,
        ensures
            final(self).state == next_state(old(self).state),
            out == mixed(final(self).state) as nat % (bound as nat),
            out < bound,
    {
        let drawn = self.next_u64();
        (drawn % (bound as u64)) as usize
    }
}

/// `items` in the order that a generator in state `state` shuffles them
/// into: each item in turn is put at a drawn position among the items that
/// came before it.
pub open spec fn shuffled<T>(items: Seq<T>, state: u64) -> Seq<T>
    decreases items.len(),
{
    if items.len() == 0 {
        Seq::empty()
    } else {
        shuffled(items.drop_last(), state).insert(
            (drawn(state, items.len()) as nat % items.len()) as int,
            items.last(),
        )
    }
}

/// Shuffling keeps the items, each as often as it occurs.
pub proof fn lemma_shuffled_permutes<T>(items: Seq<T>, state: u64)
    ensures
        shuffled(items, state).len() == items.len(),
        shuffled(items, state).to_multiset() == items.to_multiset(),
    decreases items.len(),
{
    broadcast use vstd::seq_lib::group_to_multiset_ensures;

    if items.len() == 0 {
        assert(items =~= Seq::<T>::empty());
    } else {
        let front = items.drop_last();
        lemma_shuffled_permutes(front, state);
        let p = (drawn(state, items.len()) as nat % items.len()) as int;
        to_multiset_insert(shuffled(front, state), p, items.last());
        assert(items =~= front.push(items.last()));
        assert(items.to_multiset() =~= front.to_multiset().insert(items.last()));
    }
}

/// Shuffles `items` with the numbers that `rng` draws, one for each item.
pub fn shuffle<T>(items: Vec<T>, rng: &mut Rng) -> (out: Vec<T>)
    ensures
        out@ == shuffled(items@, old(rng).state),
        final(rng).state == state_after(old(rng).state, items@.len()),
        out@.len() == items@.len(),
        out@.to_multiset() == items@.to_multiset(),
{
    let ghost all = items@;
    let ghost start = rng.state;
    let n = items.len();
    let mut out: Vec<T> = Vec::new();
    proof {
        assert(all.take(0) =~= Seq::<T>::empty());
    }
    for item in it: items
        invariant
            it.seq() == all,
            all.len() == n,
            out@ == shuffled(all.take(it.index() as int), start),
            out@.len() == it.index(),
            rng.state == state_after(start, it.index() as nat),
    {
        proof {
            let next = all.take(it.index() as int + 1);
            assert(next.drop_last() =~= all.take(it.index() as int));
            assert(next.last() == item);
        }
        let position = rng.below(out.len() + 1);
        out.insert(position, item);
    }
    proof {
        assert(all.take(all.len() as int) =~= all);
        lemma_shuffled_permutes(all, start);
    }
    out
}


/// `items` cut into consecutive groups of the given lengths, which add up to
/// the number of items.
pub open spec fn cut<T>(items: Seq<T>, lengths: Seq<nat>) -> Seq<Seq<T>>
    decreases lengths.len(),
{
    if lengths.len() == 0 {
        Seq::empty()
    } else {
        let last = lengths.last() as int;
        cut(items.take(items.len() - last), lengths.drop_last()).push(
            items.subrange(items.len() - last, items.len() as int),
        )
    }
}

/// The groups into which the scan from left to right puts `items`.
pub open spec fn split<T: ItemSize>(items: Seq<T>, limit_type: BatchLimitType, limit: nat) -> Seq<
    Seq<T>,
> {
    cut(items, batch_lengths(sizes_of(items), limit_type, limit))
}

/// Groups are found again by cutting their items at their lengths.
pub proof fn lemma_cut_flattened<T>(groups: Seq<Seq<T>>)
    ensures
        cut(flattened(groups), group_lengths(groups)) == groups,
        flattened(groups).len() >= (if groups.len() > 0 {
            groups.last().len()
        } else {
            0
        }),
    decreases groups.len(),
{
    if groups.len() > 0 {
        let front = groups.drop_last();
        lemma_cut_flattened(front);
        let items = flattened(groups);
        let last = groups.last().len() as int;
        assert(group_lengths(groups).drop_last() =~= group_lengths(front));
        assert(items.take(items.len() - last) =~= flattened(front));
        assert(items.subrange(items.len() - last, items.len() as int) =~= groups.last());
        assert(cut(items, group_lengths(groups)) =~= groups);
    } else {
        assert(cut(flattened(groups), group_lengths(groups)) =~= groups);
    }
}

/// How items are batched.
pub struct BatcherParams {
    /// Whether the items of a prefetch window are sorted by size before they are grouped.
    pub sort: bool,
    /// Whether the batches of a prefetch window are shuffled.
    pub shuffle: bool,
    /// The number of batch limits of items that a prefetch window holds; at least 1.
    pub prefetch_factor: nat,
    /// The limit of a batch; at least 1.
    pub limit: nat,
    /// What the limit counts.
    pub limit_type: BatchLimitType,
    /// The seed of the shuffling.
    pub seed: Option<u64>,
}

impl BatcherParams {
    /// The number of items of a prefetch window.
    pub open spec fn window(&self) -> nat {
        self.prefetch_factor * self.limit
    }

    /// The parameters are valid: shuffling has a seed, sorting goes with
    /// shuffling, and neither the limit nor the prefetch factor is zero.
    pub open spec fn valid(&self) -> bool {
        &&& self.shuffle ==> self.seed is Some
        &&& self.sort ==> self.shuffle
        &&& self.limit >= 1
        &&& self.prefetch_factor >= 1
    }

    /// The state from which the shuffling starts.
    pub open spec fn initial_state(&self) -> u64 {
        match self.seed {
            Some(seed) => seed,
            None => 0,
        }
    }
}

/// What is wrong with the arguments of a batcher, if anything: shuffling
/// without a seed, before sorting without shuffling, before a limit of zero.
pub open spec fn batcher_config_error(
    sort: bool,
    shuffle: bool,
    limit: usize,
    seed: Option<u64>,
) -> Option<ConfigError> {
    if shuffle && seed is None {
        Some(ConfigError::ShuffleWithoutSeed)
    } else if sort && !shuffle {
        Some(ConfigError::SortWithoutShuffle)
    } else if limit == 0 {
        Some(ConfigError::ZeroBatchLimit)
    } else {
        None
    }
}

/// The valid parameters of a batcher.
#[derive(Clone, Copy, Debug, PartialEq, Eq)]
pub struct BatcherConfig {
    sort: bool,
    shuffle: bool,
    prefetch_factor: usize,
    limit: usize,
    limit_type: BatchLimitType,
    seed: Option<u64>,
}

impl View for BatcherConfig {
    type V = BatcherParams;

    closed spec fn view(&self) -> BatcherParams {
        BatcherParams {
            sort: self.sort,
            shuffle: self.shuffle,
            prefetch_factor: self.prefetch_factor as nat,
            limit: self.limit as nat,
            limit_type: self.limit_type,
            seed: self.seed,
        }
    }
}

/// The view of the outcome of making a batcher configuration.
pub open spec fn batcher_outcome(r: Result<BatcherConfig, ConfigError>) -> Result<
    BatcherParams,
    ConfigError,
> {
    match r {
        Ok(c) => Ok(c@),
        Err(e) => Err(e),
    }
}

impl BatcherConfig {
    #[verifier::type_invariant]
    spec fn inv(&self) -> bool {
        self@.valid()
    }

    /// Checks the arguments of a batcher; a prefetch factor of 0 counts as 1.
    pub fn new(
        sort: bool,
        shuffle: bool,
        prefetch_factor: usize,
        limit: usize,
        limit_type: BatchLimitType,
        seed: Option<u64>,
    ) -> (out: Result<Self, ConfigError>)
        ensures
            batcher_outcome(out) == (match batcher_config_error(sort, shuffle, limit, seed) {
                Some(e) => Err::<BatcherParams, ConfigError>(e),
                None => Ok(
                    BatcherParams {
                        sort,
                        shuffle,
                        prefetch_factor: if prefetch_factor == 0 {
                            1
                        } else {
                            prefetch_factor as nat
                        },
                        limit: limit as nat,
                        limit_type,
                        seed,
                    },
                ),
            }),
            out matches Ok(c) ==> c@.valid(),
    {
        if shuffle && seed.is_none() {
            return Err(ConfigError::ShuffleWithoutSeed);
        }
        if sort && !shuffle {
            return Err(ConfigError::SortWithoutShuffle);
        }
        if limit == 0 {
            return Err(ConfigError::ZeroBatchLimit);
        }
        let prefetch_factor = if prefetch_factor == 0 {
            1
        } else {
            prefetch_factor
        };
        Ok(BatcherConfig { sort, shuffle, prefetch_factor, limit, limit_type, seed })
    }

    /// Whether prefetch windows are sorted by size.
    pub fn sort(&self) -> (out: bool)
        ensures
            out == self@.sort,
    {
        self.sort
    }

    /// Whether the batches of a prefetch window are shuffled.
    pub fn shuffle(&self) -> (out: bool)
        ensures
            out == self@.shuffle,
    {
        self.shuffle
    }

    /// The prefetch factor.
    pub fn prefetch_factor(&self) -> (out: usize)
        ensures
            out == self@.prefetch_factor,
    {
        self.prefetch_factor
    }

    /// The limit of a batch.
    pub fn limit(&self) -> (out: usize)
        ensures
            out == self@.limit,
    {
        self.limit
    }

    /// What the limit counts.
    pub fn limit_type(&self) -> (out: BatchLimitType)
        ensures
            out == self@.limit_type,
    {
        self.limit_type
    }

    /// The seed of the shuffling.
    pub fn seed(&self) -> (out: Option<u64>)
        ensures
            out == self@.seed,
    {
        self.seed
    }
}

/// The batches of one prefetch window: its items, sorted by size if asked
/// for, grouped by the scan from left to right, the groups shuffled if asked for.
pub open spec fn window_batches<T: ItemSize>(window: Seq<T>, params: BatcherParams, state: u64) -> Seq<
    Seq<T>,
> {
    let prepared = if params.sort {
        sorted_by_size(window)
    } else {
        window
    };
    let groups = split(prepared, params.limit_type, params.limit);
    if params.shuffle {
        shuffled(groups, state)
    } else {
        groups
    }
}

/// The state of the shuffling behind one prefetch window: one number is
/// drawn for each of its batches.
pub open spec fn state_behind<T: ItemSize>(window: Seq<T>, params: BatcherParams, state: u64) -> u64 {
    if params.shuffle {
        state_after(state, window_batches(window, params, state).len())
    } else {
        state
    }
}

/// The batches of `items`: those of the first prefetch window, then those
/// of the items behind it, shuffled with the numbers that follow.
pub open spec fn batches_from<T: ItemSize>(items: Seq<T>, params: BatcherParams, state: u64) -> Seq<
    Seq<T>,
>
    decreases items.len(),
{
    if items.len() == 0 || params.window() == 0 {
        Seq::empty()
    } else {
        let width = if params.window() < items.len() {
            params.window() as int
        } else {
            items.len() as int
        };
        let window = items.take(width);
        window_batches(window, params, state) + batches_from(
            items.skip(width),
            params,
            state_behind(window, params, state),
        )
    }
}

/// The batches of `items` under `params`.
pub open spec fn batches_of<T: ItemSize>(items: Seq<T>, params: BatcherParams) -> Seq<Seq<T>> {
    batches_from(items, params, params.initial_state())
}

/// Shuffling batches shuffles their views alike.
pub proof fn lemma_shuffled_views<T>(batches: Seq<Batch<T>>, state: u64)
    ensures
        batch_views(shuffled(batches, state)) == shuffled(batch_views(batches), state),
    decreases batches.len(),
{
    if batches.len() == 0 {
        assert(batch_views(shuffled(batches, state)) =~= shuffled(batch_views(batches), state));
    } else {
        let front = batches.drop_last();
        lemma_shuffled_views(front, state);
        lemma_shuffled_permutes(front, state);
        assert(batch_views(batches).drop_last() =~= batch_views(front));
        assert(batch_views(shuffled(batches, state)) =~= shuffled(batch_views(batches), state));
    }
}

/// The batches of one prefetch window.
pub fn batch_window<T: ItemSize>(window: Vec<T>, config: &BatcherConfig, rng: &mut Rng) -> (out:
    Vec<Batch<T>>)
    ensures
        batch_views(out@) == window_batches(window@, config@, old(rng).state),
        final(rng).state == state_behind(window@, config@, old(rng).state),
        forall|b: int|
            0 <= b < out@.len() ==> within_limit(
                #[trigger] out@[b]@,
                config@.limit_type,
                config@.limit,
            ),
        !config@.shuffle ==> flattened(batch_views(out@)) == window@,
{
    let ghost params = config@;
    let ghost state = rng.state;
    let prepared = if config.sort {
        sort_by_size(window)
    } else {
        window
    };
    let groups = split_batches(prepared, config.limit_type, config.limit);
    proof {
        use_type_invariant(config);
        lemma_cut_flattened(batch_views(groups@));
        assert(batch_views(groups@) == split(prepared@, params.limit_type, params.limit));
    }
    if config.shuffle {
        let mixed = shuffle(groups, rng);
        proof {
            lemma_shuffled_views(groups@, state);
            assert forall|b: int| 0 <= b < mixed@.len() implies within_limit(
                #[trigger] mixed@[b]@,
                params.limit_type,
                params.limit,
            ) by {
                broadcast use vstd::seq_lib::group_to_multiset_ensures;

                assert(mixed@.to_multiset().count(mixed@[b]) > 0);
                assert(groups@.contains(mixed@[b]));
                let k = choose|k: int| 0 <= k < groups@.len() && groups@[k] == mixed@[b];
                assert(within_limit(groups@[k]@, params.limit_type, params.limit));
            }
        }
        mixed
    } else {
        groups
    }
}

/// Groups `items` into batches, one prefetch window after the other.
pub fn batched<T: ItemSize>(items: Vec<T>, config: &BatcherConfig) -> (out: Vec<Batch<T>>)
    ensures
        batch_views(out@) == batches_of(items@, config@),
        forall|b: int|
            0 <= b < out@.len() ==> within_limit(
                #[trigger] out@[b]@,
                config@.limit_type,
                config@.limit,
            ),
        !config@.shuffle ==> flattened(batch_views(out@)) == items@,
        flattened(batch_views(out@)).to_multiset() == items@.to_multiset(),
{
    proof {
        use_type_invariant(config);
        lemma_batches_keep_items(items@, config@, config@.initial_state());
    }
    let ghost all = items@;
    let ghost params = config@;
    let width: usize = match config.prefetch_factor.checked_mul(config.limit) {
        Some(w) => w,
        None => usize::MAX,
    };
    let mut rng = Rng::new(
        match config.seed {
            Some(seed) => seed,
            None => 0,
        },
    );
    let mut rest = items;
    let mut out: Vec<Batch<T>> = Vec::new();
    let ghost mut done: Seq<T> = Seq::empty();
    proof {
        assert(params.window() >= 1) by (nonlinear_arith)
            requires
                params.window() == params.prefetch_factor * params.limit,
                params.prefetch_factor >= 1,
                params.limit >= 1,
        ;
        assert(batch_views(out@) =~= Seq::<Seq<T>>::empty());
        assert(flattened(batch_views(out@)) =~= Seq::<T>::empty());
        assert(done + rest@ =~= all);
    }
    while rest.len() > 0
        invariant
            params == config@,
            params.window() >= 1,
            width == (if params.window() <= usize::MAX {
                params.window() as int
            } else {
                usize::MAX as int
            }),
            batch_views(out@) + batches_from(rest@, params, rng.state) == batches_of(all, params),
            forall|b: int|
                0 <= b < out@.len() ==> within_limit(
                    #[trigger] out@[b]@,
                    params.limit_type,
                    params.limit,
                ),
            !params.shuffle ==> flattened(batch_views(out@)) == done,
            done + rest@ == all,
        decreases rest@.len(),
    {
        let ghost before = rest@;
        let ghost state = rng.state;
        let ghost emitted = batch_views(out@);
        let take = if width < rest.len() {
            width
        } else {
            rest.len()
        };
        let tail = rest.split_off(take);
        let window = rest;
        rest = tail;
        proof {
            assert(window@ =~= before.take(take as int));
            assert(rest@ =~= before.skip(take as int));
            assert(batches_from(before, params, state) == window_batches(window@, params, state)
                + batches_from(rest@, params, state_behind(window@, params, state)));
        }
        let mut groups = batch_window(window, config, &mut rng);
        let ghost added = batch_views(groups@);
        let ghost old_out = out@;
        out.append(&mut groups);
        proof {
            assert(batch_views(out@) =~= emitted + added);
            assert(batch_views(out@) + batches_from(rest@, params, rng.state) =~= emitted + (added
                + batches_from(rest@, params, rng.state)));
            assert forall|b: int| 0 <= b < out@.len() implies within_limit(
                #[trigger] out@[b]@,
                params.limit_type,
                params.limit,
            ) by {
                if b < old_out.len() {
                    assert(out@[b] == old_out[b]);
                }
            }
            if !params.shuffle {
                lemma_flattened_concat(emitted, added);
            }
            let ghost old_done = done;
            done = done + before.take(take as int);
            assert(done + rest@ =~= old_done + before);
        }
    }
    proof {
        assert(batches_from(rest@, params, rng.state) =~= Seq::<Seq<T>>::empty());
        assert(batch_views(out@) + Seq::<Seq<T>>::empty() =~= batch_views(out@));
        assert(done =~= all);
    }
    out
}



/// What the limit means for a batch that is within it: the batch is not
/// empty; under a limit on the batch size it holds at most `limit` items;
/// under a limit on the token count its padded rectangle, the number of items
/// times the largest size, has at most `limit` cells, unless it is a single
/// item.
pub proof fn lemma_within_limit<T: ItemSize>(batch: Seq<T>, limit_type: BatchLimitType, limit: nat)
    requires
        within_limit(batch, limit_type, limit),
        limit >= 1,
    ensures
        1 <= batch.len(),
        limit_type is BatchSize ==> batch.len() <= limit,
        limit_type is TokenCount ==> batch.len() == 1 || batch.len() * seq_max(sizes_of(batch))
            <= limit,
{
    assert(limit_type is TokenCount && batch.len() > 1 ==> batch.len() * seq_max(sizes_of(batch))
        <= limit) by (nonlinear_arith)
        requires
            limit_type is TokenCount && batch.len() > 1 ==> seq_max(sizes_of(batch)) * batch.len()
                <= limit,
    ;
}

/// How the items of several sources are mixed into one stream.
#[derive(Debug, PartialEq, Eq)]
pub enum TextIterationStrategy {
    /// One source after the other.
    Sequential,
    /// One item of every source that has one left, in turn.
    Interleaved,
    /// The next source is drawn with a chance in proportion to its weight
    /// among the sources that have an item left.
    Weighted(Vec<u64>),
}

impl Clone for TextIterationStrategy {
    fn clone(&self) -> (out: Self)
        ensures
            out.weights() == self.weights(),
            out is Sequential == self is Sequential,
            out is Interleaved == self is Interleaved,
    {
        match self {
            TextIterationStrategy::Sequential => TextIterationStrategy::Sequential,
            TextIterationStrategy::Interleaved => TextIterationStrategy::Interleaved,
            TextIterationStrategy::Weighted(w) => TextIterationStrategy::Weighted(
                crate::utils::copy_of(w),
            ),
        }
    }
}

/// The sum of the numbers of `s`.
pub open spec fn total(s: Seq<nat>) -> nat
    decreases s.len(),
{
    if s.len() == 0 {
        0
    } else {
        total(s.drop_last()) + s.last()
    }
}

/// The smallest number of `s`, and 0 for the empty sequence.
pub open spec fn seq_min(s: Seq<nat>) -> nat
    decreases s.len(),
{
    if s.len() == 0 {
        0
    } else if s.len() == 1 || s.last() <= seq_min(s.drop_last()) {
        s.last()
    } else {
        seq_min(s.drop_last())
    }
}

/// `seq_min` is a lower bound of the numbers, and one of them unless there is none.
pub proof fn lemma_seq_min(s: Seq<nat>)
    ensures
        forall|i: int| 0 <= i < s.len() ==> seq_min(s) <= s[i],
        s.len() > 0 ==> exists|i: int| 0 <= i < s.len() && s[i] == seq_min(s),
    decreases s.len(),
{
    if s.len() > 0 {
        let front = s.drop_last();
        lemma_seq_min(front);
        assert forall|i: int| 0 <= i < s.len() implies seq_min(s) <= s[i] by {
            if i < s.len() - 1 {
                assert(front[i] == s[i]);
            }
        }
        if s.len() == 1 || s.last() <= seq_min(front) {
            assert(s[s.len() - 1] == seq_min(s));
        } else {
            let i = choose|i: int| 0 <= i < front.len() && front[i] == seq_min(front);
            assert(s[i] == seq_min(s));
        }
    }
}

impl TextIterationStrategy {
    /// The weights of the sources; none unless the strategy is weighted.
    pub open spec fn weights(&self) -> Seq<nat> {
        match self {
            TextIterationStrategy::Weighted(w) => Seq::new(w@.len(), |i: int| w@[i] as nat),
            _ => Seq::empty(),
        }
    }

    /// The strategy fits `sources` sources: if it is weighted, it has one
    /// positive weight for every source, and the sum of the weights is a `u64`.
    pub open spec fn fits(&self, sources: nat) -> bool {
        self is Weighted ==> {
            &&& self.weights().len() == sources
            &&& forall|i: int| 0 <= i < sources ==> (#[trigger] self.weights()[i]) > 0
            &&& total(self.weights()) <= u64::MAX
        }
    }

    /// Decides `fits`.
    pub fn check(&self, sources: usize) -> (ok: bool)
        ensures
            ok == self.fits(sources as nat),
    {
        match self {
            TextIterationStrategy::Weighted(w) => {
                if w.len() != sources {
                    return false;
                }
                let ghost weights = self.weights();
                let mut sum: u64 = 0;
                let mut i: usize = 0;
                proof {
                    assert(weights.take(0) =~= Seq::<nat>::empty());
                }
                while i < w.len()
                    invariant
                        i <= w.len(),
                        self is Weighted,
                        w@.len() == sources,
                        weights == self.weights(),
                        weights == Seq::new(w@.len(), |i: int| w@[i] as nat),
                        forall|j: int| 0 <= j < i ==> (#[trigger] weights[j]) > 0,
                        sum == total(weights.take(i as int)),
                    decreases w.len() - i,
                {
                    if w[i] == 0 {
                        proof {
                            assert(weights[i as int] == 0);
                        }
                        return false;
                    }
                    proof {
                        let next = weights.take(i as int + 1);
                        assert(next.drop_last() =~= weights.take(i as int));
                        assert(next.last() == w@[i as int] as nat);
                    }
                    sum = match sum.checked_add(w[i]) {
                        Some(s) => s,
                        None => {
                            proof {
                                lemma_total_take(weights, i as int + 1);
                            }
                            return false;
                        },
                    };
                    i += 1;
                }
                proof {
                    assert(weights.take(w@.len() as int) =~= weights);
                }
                true
            },
            _ => true,
        }
    }
}

/// The sum of the first numbers is at most the sum of all.
pub proof fn lemma_total_take(s: Seq<nat>, k: int)
    requires
        0 <= k <= s.len(),
    ensures
        total(s.take(k)) <= total(s),
    decreases s.len() - k,
{
    if k < s.len() {
        assert(s.drop_last().take(k) =~= s.take(k));
        lemma_total_take(s.drop_last(), k);
    } else {
        assert(s.take(k) =~= s);
    }
}

/// The share of the stream that source `i` can fill before it runs out,
/// if it holds `len` items: `len` over its part of the weights.
pub open spec fn weighted_share(len: nat, weights: Seq<nat>, i: int) -> nat {
    if weights[i] > 0 {
        (len * total(weights)) / weights[i]
    } else {
        0
    }
}

/// A lower bound on the number of items of the mixed stream, from a
/// lower bound `lens[i]` on the number of items of each source: their sum
/// for sequential mixing; the number of sources times the smallest of them for
/// interleaving; the smallest share for weighted mixing.
pub open spec fn strategy_min_len(lens: Seq<nat>, strategy: TextIterationStrategy) -> nat {
    match strategy {
        TextIterationStrategy::Sequential => total(lens),
        TextIterationStrategy::Interleaved => lens.len() * seq_min(lens),
        TextIterationStrategy::Weighted(_) => seq_min(
            Seq::new(lens.len(), |i: int| weighted_share(lens[i], strategy.weights(), i)),
        ),
    }
}

/// The numbers of `v`, as natural numbers.
pub open spec fn nats(v: Seq<usize>) -> Seq<nat> {
    Seq::new(v.len(), |i: int| v[i] as nat)
}

/// `n` if it fits a `usize`, and the largest `usize` otherwise.
pub open spec fn saturated(n: nat) -> usize {
    if n <= usize::MAX {
        n as usize
    } else {
        usize::MAX
    }
}


/// The items of each source.
pub open spec fn source_views<T>(sources: Seq<Vec<T>>) -> Seq<Seq<T>> {
    Seq::new(sources.len(), |i: int| sources[i]@)
}

/// The number of items of each source.
pub open spec fn source_lengths<T>(sources: Seq<Seq<T>>) -> Seq<nat> {
    Seq::new(sources.len(), |i: int| sources[i].len())
}

/// Round `k` of interleaving: item `k` of every source that has one, in
/// the order of the sources.
pub open spec fn round<T>(sources: Seq<Seq<T>>, k: int) -> Seq<T>
    decreases sources.len(),
{
    if sources.len() == 0 {
        Seq::empty()
    } else if k < sources.last().len() {
        round(sources.drop_last(), k).push(sources.last()[k])
    } else {
        round(sources.drop_last(), k)
    }
}

/// The first `rounds` rounds of interleaving, one after the other.
pub open spec fn interleaved<T>(sources: Seq<Seq<T>>, rounds: nat) -> Seq<T>
    decreases rounds,
{
    if rounds == 0 {
        Seq::empty()
    } else {
        interleaved(sources, (rounds - 1) as nat) + round(sources, rounds - 1)
    }
}

/// Concatenating vectors gives the items of their views, one view after the other.
pub proof fn lemma_concat_all_flattened<T>(sources: Seq<Vec<T>>)
    ensures
        concat_all(sources) == flattened(source_views(sources)),
    decreases sources.len(),
{
    if sources.len() > 0 {
        lemma_concat_all_flattened(sources.drop_last());
        assert(source_views(sources).drop_last() =~= source_views(sources.drop_last()));
    }
}

/// The sources with the items of each in reverse order.
fn reverse_all<T>(sources: Vec<Vec<T>>) -> (out: Vec<Vec<T>>)
    ensures
        out@.len() == sources@.len(),
        forall|i: int| 0 <= i < out@.len() ==> (#[trigger] out@[i])@ == sources@[i]@.reverse(),
{
    let ghost all = sources@;
    let mut out: Vec<Vec<T>> = Vec::new();
    for source in it: sources
        invariant
            it.seq() == all,
            out@.len() == it.index(),
            forall|i: int| 0 <= i < out@.len() ==> (#[trigger] out@[i])@ == all[i]@.reverse(),
    {
        let ghost whole = source@;
        let mut source = source;
        let mut turned: Vec<T> = Vec::new();
        while source.len() > 0
            invariant
                source@.len() <= whole.len(),
                source@ == whole.take(source@.len() as int),
                turned@.len() == whole.len() - source@.len(),
                forall|j: int|
                    0 <= j < turned@.len() ==> #[trigger] turned@[j] == whole[whole.len() - 1 - j],
            decreases source@.len(),
        {
            let item = source.pop().unwrap();
            turned.push(item);
        }
        proof {
            assert(turned@ =~= whole.reverse());
        }
        out.push(turned);
    }
    out
}

/// The items of `sources`, one round of interleaving after the other.
fn interleave<T>(sources: Vec<Vec<T>>) -> (out: Vec<T>)
    ensures
        out@ == interleaved(
            source_views(sources@),
            seq_max(source_lengths(source_views(sources@))),
        ),
{
    let ghost src = source_views(sources@);
    let ghost lens = source_lengths(src);
    let n = sources.len();
    let mut rounds: usize = 0;
    let mut s: usize = 0;
    proof {
        assert(lens.take(0) =~= Seq::<nat>::empty());
    }
    while s < n
        invariant
            s <= n,
            n == sources@.len(),
            src == source_views(sources@),
            lens == source_lengths(src),
            rounds == seq_max(lens.take(s as int)),
        decreases n - s,
    {
        let len = sources[s].len();
        proof {
            let next = lens.take(s as int + 1);
            assert(next.drop_last() =~= lens.take(s as int));
            assert(next.last() == len as nat);
        }
        if len >= rounds {
            rounds = len;
        }
        s += 1;
    }
    proof {
        assert(lens.take(n as int) =~= lens);
    }
    let mut rev = reverse_all(sources);
    let mut out: Vec<T> = Vec::new();
    let mut k: usize = 0;
    while k < rounds
        invariant
            k <= rounds,
            n == src.len(),
            rev@.len() == n,
            lens == source_lengths(src),
            out@ == interleaved(src, k as nat),
            forall|i: int|
                0 <= i < n ==> (#[trigger] rev@[i])@ == src[i].skip(
                    if k <= src[i].len() {
                        k as int
                    } else {
                        src[i].len() as int
                    },
                ).reverse(),
        decreases rounds - k,
    {
        let ghost start = out@;
        let mut i: usize = 0;
        proof {
            assert(src.take(0) =~= Seq::<Seq<T>>::empty());
        }
        while i < n
            invariant
                i <= n,
                k < rounds,
                n == src.len(),
                rev@.len() == n,
                out@ == start + round(src.take(i as int), k as int),
                forall|j: int|
                    0 <= j < n ==> (#[trigger] rev@[j])@ == src[j].skip(
                        if (if j < i {
                            k + 1
                        } else {
                            k as int
                        }) <= src[j].len() {
                            if j < i {
                                k + 1
                            } else {
                                k as int
                            }
                        } else {
                            src[j].len() as int
                        },
                    ).reverse(),
            decreases n - i,
        {
            proof {
                let upto = src.take(i as int + 1);
                assert(upto.drop_last() =~= src.take(i as int));
                assert(upto.last() == src[i as int]);
            }
            let ghost before = rev@;
            let ghost rest = rev@[i as int]@;
            match rev[i].pop() {
                Some(item) => {
                    proof {
                        let tail = src[i as int].skip(k as int);
                        assert(tail.len() > 0);
                        assert(rest.last() == tail.reverse()[tail.len() - 1]);
                        assert(item == src[i as int][k as int]);
                        assert(rev@[i as int]@ =~= src[i as int].skip(k + 1).reverse());
                    }
                    out.push(item);
                },
                None => {
                    proof {
                        assert(rest.len() == 0);
                        assert(k >= src[i as int].len());
                    }
                },
            }
            proof {
                assert forall|j: int| 0 <= j < n implies (#[trigger] rev@[j])@ == src[j].skip(
                    if (if j < i + 1 {
                        k + 1
                    } else {
                        k as int
                    }) <= src[j].len() {
                        if j < i + 1 {
                            k + 1
                        } else {
                            k as int
                        }
                    } else {
                        src[j].len() as int
                    },
                ).reverse() by {
                    if j != i {
                        assert(rev@[j] == before[j]);
                    }
                }
            }
            i += 1;
        }
        proof {
            assert(src.take(n as int) =~= src);
        }
        k += 1;
    }
    out
}


/// The source that a drawn number picks: the first one at which the running
/// sum of the weights exceeds `target`. Sources of weight 0 are never picked
/// while `target` is below the sum of all weights.
pub open spec fn pick(weights: Seq<nat>, target: nat) -> nat
    decreases weights.len(),
{
    if weights.len() <= 1 {
        0
    } else if target < total(weights.drop_last()) {
        pick(weights.drop_last(), target)
    } else {
        (weights.len() - 1) as nat
    }
}

/// The picked source is the one whose stretch of the running sum holds the target.
pub proof fn lemma_pick(weights: Seq<nat>, target: nat, i: int)
    requires
        0 <= i < weights.len(),
        total(weights.take(i)) <= target < total(weights.take(i + 1)),
    ensures
        pick(weights, target) == i,
        weights[i] > 0,
    decreases weights.len(),
{
    assert(weights.take(i + 1).drop_last() =~= weights.take(i));
    assert(weights.take(i + 1).last() == weights[i]);
    if i < weights.len() - 1 {
        let front = weights.drop_last();
        lemma_total_take(front, i + 1);
        assert(front.take(i + 1) =~= weights.take(i + 1));
        assert(front.take(i) =~= weights.take(i));
        lemma_pick(front, target, i);
    } else {
        assert(weights.take(i) =~= weights.drop_last());
    }
}

proof fn lemma_prefix_sum_total(values: Seq<u64>, k: int)
    requires
        0 <= k <= values.len(),
    ensures
        prefix_sum(values, k) == total(Seq::new(values.len(), |i: int| values[i] as nat).take(k)),
    decreases k,
{
    let w = Seq::new(values.len(), |i: int| values[i] as nat);
    if k > 0 {
        lemma_prefix_sum_total(values, k - 1);
        assert(w.take(k).drop_last() =~= w.take(k - 1));
        assert(w.take(k).last() == values[k - 1] as nat);
    } else {
        assert(w.take(0) =~= Seq::<nat>::empty());
    }
}

/// Picks the source for a drawn number.
pub fn pick_source(weights: &Vec<u64>, target: u64) -> (out: usize)
    requires
        total(Seq::new(weights@.len(), |i: int| weights@[i] as nat)) <= u64::MAX,
        target < total(Seq::new(weights@.len(), |i: int| weights@[i] as nat)),
    ensures
        out == pick(Seq::new(weights@.len(), |i: int| weights@[i] as nat), target as nat),
        out < weights@.len(),
        weights@[out as int] > 0,
{
    let ghost w = Seq::new(weights@.len(), |i: int| weights@[i] as nat);
    proof {
        assert forall|k: int| 0 <= k <= weights@.len() implies 0 <= #[trigger] prefix_sum(
            weights@,
            k,
        ) <= u64::MAX by {
            lemma_prefix_sum_total(weights@, k);
            lemma_total_take(w, k);
        }
    }
    let sums = accumulate(weights.as_slice());
    let n = weights.len();
    let mut i: usize = 0;
    proof {
        lemma_prefix_sum_total(weights@, 0);
        assert(w.take(w.len() as int) =~= w);
        if w.len() == 0 {
            assert(w =~= Seq::<nat>::empty());
        }
    }
    while sums[i] <= target
        invariant
            i < weights@.len(),
            n == weights@.len(),
            sums@.len() == weights@.len(),
            w == Seq::new(weights@.len(), |i: int| weights@[i] as nat),
            target < total(w),
            total(w.take(i as int)) <= target,
            forall|k: int|
                0 <= k < weights@.len() ==> (#[trigger] sums@[k]) as int == prefix_sum(
                    weights@,
                    k + 1,
                ),
        decreases weights@.len() - i,
    {
        proof {
            lemma_prefix_sum_total(weights@, i + 1);
            if i + 1 == weights@.len() {
                assert(w.take(i + 1) =~= w);
            }
        }
        i += 1;
    }
    proof {
        lemma_prefix_sum_total(weights@, i + 1);
        lemma_pick(w, target as nat, i as int);
    }
    i
}


/// The weights of the sources that have an item left when `taken[i]` items
/// of source `i` are taken; a source without one counts 0.
pub open spec fn active_weights(lens: Seq<nat>, taken: Seq<nat>, weights: Seq<nat>) -> Seq<nat> {
    Seq::new(
        lens.len(),
        |i: int|
            if taken[i] < lens[i] {
                weights[i]
            } else {
                0
            },
    )
}

/// The next `steps` items of weighted mixing, when `taken[i]` items of
/// source `i` are taken and the generator is in state `state`: the next item
/// of the source that the next drawn number picks, then the items that
/// follow; nothing once no source has an item left.
pub open spec fn weighted<T>(
    sources: Seq<Seq<T>>,
    weights: Seq<nat>,
    taken: Seq<nat>,
    state: u64,
    steps: nat,
) -> Seq<T>
    decreases steps,
{
    let active = active_weights(source_lengths(sources), taken, weights);
    if steps == 0 || total(active) == 0 {
        Seq::empty()
    } else {
        let i = pick(active, drawn(state, 1) as nat % total(active)) as int;
        seq![sources[i][taken[i] as int]] + weighted(
            sources,
            weights,
            taken.update(i, taken[i] + 1),
            next_state(state),
            (steps - 1) as nat,
        )
    }
}

/// The stream into which `sources` are mixed.
pub open spec fn mixed_stream<T>(
    sources: Seq<Seq<T>>,
    strategy: TextIterationStrategy,
    seed: Option<u64>,
) -> Seq<T> {
    match strategy {
        TextIterationStrategy::Sequential => flattened(sources),
        TextIterationStrategy::Interleaved => interleaved(
            sources,
            seq_max(source_lengths(sources)),
        ),
        TextIterationStrategy::Weighted(_) => weighted(
            sources,
            strategy.weights(),
            Seq::new(sources.len(), |i: int| 0nat),
            match seed {
                Some(s) => s,
                None => 0,
            },
            total(source_lengths(sources)),
        ),
    }
}

proof fn lemma_total_pointwise(a: Seq<nat>, b: Seq<nat>)
    requires
        a.len() == b.len(),
        forall|i: int| 0 <= i < a.len() ==> a[i] <= b[i],
    ensures
        total(a) <= total(b),
    decreases a.len(),
{
    if a.len() > 0 {
        assert forall|i: int| 0 <= i < a.drop_last().len() implies a.drop_last()[i]
            <= b.drop_last()[i] by {
            assert(a.drop_last()[i] == a[i]);
            assert(b.drop_last()[i] == b[i]);
        }
        lemma_total_pointwise(a.drop_last(), b.drop_last());
        assert(a.last() == a[a.len() - 1]);
        assert(b.last() == b[b.len() - 1]);
    }
}

proof fn lemma_total_update(s: Seq<nat>, i: int, v: nat)
    requires
        0 <= i < s.len(),
    ensures
        total(s.update(i, v)) == total(s) - s[i] + v,
        total(s) >= s[i],
    decreases s.len(),
{
    if i < s.len() - 1 {
        assert(s.update(i, v).drop_last() =~= s.drop_last().update(i, v));
        lemma_total_update(s.drop_last(), i, v);
    } else {
        assert(s.update(i, v).drop_last() =~= s.drop_last());
    }
}

/// What is left of each source that holds `rev[i]`, its items in reverse order.
spec fn left_of<T>(rev: Seq<Vec<T>>) -> Seq<nat> {
    Seq::new(rev.len(), |i: int| rev[i]@.len())
}

/// The weight of every source that has an item left, and 0 for the others;
/// and the sum of these weights.
fn weights_left<T>(rev: &Vec<Vec<T>>, weights: &Vec<u64>) -> (out: (Vec<u64>, u64))
    requires
        rev@.len() == weights@.len(),
        total(Seq::new(weights@.len(), |i: int| weights@[i] as nat)) <= u64::MAX,
    ensures
        out.0@.len() == rev@.len(),
        forall|i: int|
            0 <= i < rev@.len() ==> (#[trigger] out.0@[i]) == (if rev@[i]@.len() > 0 {
                weights@[i]
            } else {
                0
            }),
        out.1 == total(Seq::new(out.0@.len(), |i: int| out.0@[i] as nat)),
{
    let ghost w = Seq::new(weights@.len(), |i: int| weights@[i] as nat);
    let mut active: Vec<u64> = Vec::new();
    let mut sum: u64 = 0;
    let mut i: usize = 0;
    proof {
        assert(Seq::new(active@.len(), |i: int| active@[i] as nat) =~= Seq::<nat>::empty());
    }
    while i < rev.len()
        invariant
            i <= rev@.len(),
            rev@.len() == weights@.len(),
            w == Seq::new(weights@.len(), |i: int| weights@[i] as nat),
            total(w) <= u64::MAX,
            active@.len() == i,
            forall|j: int|
                0 <= j < i ==> (#[trigger] active@[j]) == (if rev@[j]@.len() > 0 {
                    weights@[j]
                } else {
                    0
                }),
            sum == total(Seq::new(active@.len(), |i: int| active@[i] as nat)),
        decreases rev@.len() - i,
    {
        let weight: u64 = if rev[i].len() > 0 {
            weights[i]
        } else {
            0
        };
        let ghost before = Seq::new(active@.len(), |i: int| active@[i] as nat);
        active.push(weight);
        proof {
            let after = Seq::new(active@.len(), |i: int| active@[i] as nat);
            assert(after.drop_last() =~= before);
            assert(after.last() == weight as nat);
            assert forall|j: int| 0 <= j < after.len() implies after[j] <= w.take(i + 1)[j] by {}
            lemma_total_pointwise(after, w.take(i + 1));
            lemma_total_take(w, i + 1);
        }
        sum = sum + weight;
        i += 1;
    }
    (active, sum)
}

/// The weights that count when the sources hold what `rev` holds.
spec fn weights_of_left<T>(rev: Seq<Vec<T>>, weights: Seq<u64>) -> Seq<nat> {
    Seq::new(
        rev.len(),
        |i: int|
            if rev[i]@.len() > 0 {
                weights[i] as nat
            } else {
                0
            },
    )
}

/// Takes the next item of the source that the next drawn number picks,
/// unless no source has an item left.
fn weighted_step<T>(rev: &mut Vec<Vec<T>>, weights: &Vec<u64>, rng: &mut Rng) -> (out: Option<
    (usize, T),
>)
    requires
        old(rev)@.len() == weights@.len(),
        total(Seq::new(weights@.len(), |i: int| weights@[i] as nat)) <= u64::MAX,
    ensures
        final(rev)@.len() == old(rev)@.len(),
        out is None <==> total(weights_of_left(old(rev)@, weights@)) == 0,
        out is None ==> final(rev)@ == old(rev)@ && final(rng).state == old(rng).state,
        out matches Some((i, item)) ==> {
            &&& i == pick(
                weights_of_left(old(rev)@, weights@),
                drawn(old(rng).state, 1) as nat % total(weights_of_left(old(rev)@, weights@)),
            )
            &&& i < old(rev)@.len()
            &&& old(rev)@[i as int]@.len() > 0
            &&& item == old(rev)@[i as int]@.last()
            &&& final(rev)@[i as int]@ == old(rev)@[i as int]@.drop_last()
            &&& forall|j: int|
                0 <= j < old(rev)@.len() && j != i ==> final(rev)@[j] == old(rev)@[j]
            &&& final(rng).state == next_state(old(rng).state)
        },
{
    let (active, sum) = weights_left(rev, weights);
    proof {
        assert(Seq::new(active@.len(), |i: int| active@[i] as nat) =~= weights_of_left(
            rev@,
            weights@,
        ));
    }
    if sum == 0 {
        return None;
    }
    let ghost state = rng.state;
    let target = rng.next_u64() % sum;
    proof {
        lemma_first_draw(state);
    }
    let i = pick_source(&active, target);
    let item = rev[i].pop().unwrap();
    Some((i, item))
}

/// One step of weighted mixing, in terms of the sources and of what is taken.
proof fn lemma_weighted_step<T>(
    src: Seq<Seq<T>>,
    w: Seq<nat>,
    taken: Seq<nat>,
    state: u64,
    steps: nat,
    i: int,
)
    requires
        taken.len() == src.len(),
        forall|j: int| 0 <= j < src.len() ==> (#[trigger] taken[j]) <= src[j].len(),
        steps == total(Seq::new(src.len(), |j: int| (src[j].len() - taken[j]) as nat)),
        total(active_weights(source_lengths(src), taken, w)) > 0,
        i == pick(
            active_weights(source_lengths(src), taken, w),
            drawn(state, 1) as nat % total(active_weights(source_lengths(src), taken, w)),
        ),
        0 <= i < src.len(),
        taken[i] < src[i].len(),
    ensures
        steps > 0,
        steps - 1 == total(
            Seq::new(
                src.len(),
                |j: int| (src[j].len() - taken.update(i, taken[i] + 1)[j]) as nat,
            ),
        ),
        weighted(src, w, taken, state, steps) == seq![src[i][taken[i] as int]] + weighted(
            src,
            w,
            taken.update(i, taken[i] + 1),
            next_state(state),
            (steps - 1) as nat,
        ),
{
    let left = Seq::new(src.len(), |j: int| (src[j].len() - taken[j]) as nat);
    lemma_total_update(left, i, (left[i] - 1) as nat);
    assert(Seq::new(src.len(), |j: int| (src[j].len() - taken.update(i, taken[i] + 1)[j]) as nat)
        =~= left.update(i, (left[i] - 1) as nat));
}

/// The items of `sources`, each next one from a source drawn by weight.
fn mix_weighted<T>(sources: Vec<Vec<T>>, weights: &Vec<u64>, seed: u64) -> (out: Vec<T>)
    requires
        weights@.len() == sources@.len(),
        total(Seq::new(weights@.len(), |i: int| weights@[i] as nat)) <= u64::MAX,
    ensures
        out@ == weighted(
            source_views(sources@),
            Seq::new(weights@.len(), |i: int| weights@[i] as nat),
            Seq::new(sources@.len(), |i: int| 0nat),
            seed,
            total(source_lengths(source_views(sources@))),
        ),
{
    let ghost src = source_views(sources@);
    let ghost w = Seq::new(weights@.len(), |i: int| weights@[i] as nat);
    let ghost mut taken: Seq<nat> = Seq::new(sources@.len(), |i: int| 0nat);
    let ghost mut steps: nat = total(source_lengths(src));
    let ghost full = weighted(src, w, taken, seed, steps);
    let mut rng = Rng::new(seed);
    let mut rev = reverse_all(sources);
    let mut out: Vec<T> = Vec::new();
    proof {
        assert(Seq::new(src.len(), |i: int| (src[i].len() - taken[i]) as nat) =~= source_lengths(
            src,
        ));
        assert forall|i: int| 0 <= i < src.len() implies (#[trigger] rev@[i])@ == src[i].skip(
            taken[i] as int,
        ).reverse() by {
            assert(src[i].skip(0) =~= src[i]);
        }
        assert(out@ + full =~= full);
    }
    loop
        invariant
            rev@.len() == src.len(),
            weights@.len() == src.len(),
            taken.len() == src.len(),
            w == Seq::new(weights@.len(), |i: int| weights@[i] as nat),
            total(w) <= u64::MAX,
            forall|i: int| 0 <= i < src.len() ==> (#[trigger] taken[i]) <= src[i].len(),
            forall|i: int|
                0 <= i < src.len() ==> (#[trigger] rev@[i])@ == src[i].skip(
                    taken[i] as int,
                ).reverse(),
            steps == total(Seq::new(src.len(), |i: int| (src[i].len() - taken[i]) as nat)),
            out@ + weighted(src, w, taken, rng.state, steps) == full,
        ensures
            out@ == full,
        decreases steps,
    {
        let ghost state = rng.state;
        let ghost before = rev@;
        let ghost emitted = out@;
        proof {
            assert(weights_of_left(rev@, weights@) =~= active_weights(
                source_lengths(src),
                taken,
                w,
            ));
        }
        match weighted_step(&mut rev, weights, &mut rng) {
            None => {
                proof {
                    assert(out@ + Seq::<T>::empty() =~= out@);
                }
                break;
            },
            Some((i, item)) => {
                proof {
                    let tail = src[i as int].skip(taken[i as int] as int);
                    assert(before[i as int]@ == tail.reverse());
                    assert(tail.len() > 0);
                    assert(item == tail.reverse()[tail.len() - 1]);
                    assert(item == src[i as int][taken[i as int] as int]);
                    lemma_weighted_step(src, w, taken, state, steps, i as int);
                    let ghost old_taken = taken;
                    taken = taken.update(i as int, taken[i as int] + 1);
                    assert(rev@[i as int]@ =~= src[i as int].skip(
                        taken[i as int] as int,
                    ).reverse());
                    assert forall|j: int| 0 <= j < src.len() implies (#[trigger] rev@[j])@
                        == src[j].skip(taken[j] as int).reverse() by {
                        if j != i {
                            assert(rev@[j] == before[j]);
                            assert(taken[j] == old_taken[j]);
                        }
                    }
                    steps = (steps - 1) as nat;
                }
                out.push(item);
                proof {
                    assert(out@ + weighted(src, w, taken, rng.state, steps) =~= emitted + (
                    seq![item] + weighted(src, w, taken, rng.state, steps)));
                }
            },
        }
    }
    out
}

/// Mixes the items of `sources` into one stream.
pub fn mix<T>(sources: Vec<Vec<T>>, strategy: &TextIterationStrategy, seed: Option<u64>) -> (out:
    Vec<T>)
    requires
        strategy.fits(sources@.len()),
    ensures
        out@ == mixed_stream(source_views(sources@), *strategy, seed),
        out@.to_multiset() == flattened(source_views(sources@)).to_multiset(),
{
    proof {
        lemma_mixed_keeps_items(source_views(sources@), *strategy, seed);
    }
    match strategy {
        TextIterationStrategy::Sequential => {
            proof {
                lemma_concat_all_flattened(sources@);
            }
            join(sources)
        },
        TextIterationStrategy::Interleaved => interleave(sources),
        TextIterationStrategy::Weighted(weights) => {
            proof {
                assert(strategy.weights() =~= Seq::new(weights@.len(), |i: int| weights@[i] as nat));
            }
            mix_weighted(
                sources,
                weights,
                match seed {
                    Some(s) => s,
                    None => 0,
                },
            )
        },
    }
}


/// Applies `pipeline` to every item of `items`, each with its index in
/// `items` and the seed; the results come in the order of the items.
pub fn pipe<I, O, X: Transform<I, O>>(items: Vec<I>, pipeline: &X, seed: Option<u64>) -> (out: Vec<O>)
    requires
        forall|i: int|
            0 <= i < items@.len() ==> pipeline.accepts(#[trigger] items@[i], i as usize, seed),
    ensures
        out@.len() == items@.len(),
        forall|i: int|
            0 <= i < items@.len() ==> pipeline.yields(
                items@[i],
                i as usize,
                seed,
                #[trigger] out@[i],
            ),
{
    let ghost all = items@;
    let n = items.len();
    let mut out: Vec<O> = Vec::new();
    let mut i: usize = 0;
    for item in it: items
        invariant
            it.seq() == all,
            all.len() == n,
            i == it.index(),
            out@.len() == i,
            forall|j: int|
                0 <= j < all.len() ==> pipeline.accepts(#[trigger] all[j], j as usize, seed),
            forall|j: int|
                0 <= j < i ==> pipeline.yields(all[j], j as usize, seed, #[trigger] out@[j]),
    {
        proof {
            assert(pipeline.accepts(all[i as int], i, seed));
        }
        out.push(pipeline.apply(item, i, seed));
        i += 1;
    }
    out
}

/// The most workers that a pipeline stage runs.
pub const MAX_WORKERS: usize = 64;

/// The number of items in flight that a stage holds for each of its workers.
pub const IN_FLIGHT_PER_WORKER: usize = 4;

/// The number of workers of a stage for which none is asked: one for every
/// processor, and at most four.
pub fn default_workers(processors: usize) -> (out: usize)
    ensures
        out == (if processors < 4 {
            processors
        } else {
            4
        }),
{
    if processors < 4 {
        processors
    } else {
        4
    }
}

/// The bookkeeping of a pipeline stage that hands its items to workers:
/// every item is tagged with its index in the stream when it is handed out,
/// the results come back in any order, and they are released in the order of
/// the indices. At most four items for each worker are in flight, handed out
/// and not yet released.
pub struct PipelineStage<O> {
    workers: usize,
    dispatched: usize,
    released: usize,
    pending: Vec<(usize, O)>,
}

/// What a stage is made of, as plain values.
pub struct StageView<O> {
    /// The number of workers.
    pub workers: nat,
    /// The number of items handed out; the next one gets this index.
    pub dispatched: nat,
    /// The number of results released; the next one has this index.
    pub released: nat,
    /// The results that came back and are not released, by index.
    pub pending: Map<nat, O>,
}

/// The results of `pending`, by index.
pub open spec fn pending_map<O>(pending: Seq<(usize, O)>) -> Map<nat, O>
    decreases pending.len(),
{
    if pending.len() == 0 {
        Map::empty()
    } else {
        pending_map(pending.drop_last()).insert(pending.last().0 as nat, pending.last().1)
    }
}

proof fn lemma_pending_map<O>(pending: Seq<(usize, O)>)
    requires
        forall|i: int, j: int|
            0 <= i < j < pending.len() ==> (#[trigger] pending[i]).0 != (#[trigger] pending[j]).0,
    ensures
        forall|i: int|
            0 <= i < pending.len() ==> pending_map(pending).contains_key(
                (#[trigger] pending[i]).0 as nat,
            ) && pending_map(pending)[pending[i].0 as nat] == pending[i].1,
        forall|k: nat|
            pending_map(pending).contains_key(k) ==> exists|i: int|
                0 <= i < pending.len() && (#[trigger] pending[i]).0 == k,
    decreases pending.len(),
{
    if pending.len() > 0 {
        let front = pending.drop_last();
        assert forall|i: int, j: int| 0 <= i < j < front.len() implies (#[trigger] front[i]).0 != (
        #[trigger] front[j]).0 by {
            assert(front[i] == pending[i] && front[j] == pending[j]);
        }
        lemma_pending_map(front);
        assert forall|i: int| 0 <= i < pending.len() implies pending_map(pending).contains_key(
            (#[trigger] pending[i]).0 as nat,
        ) && pending_map(pending)[pending[i].0 as nat] == pending[i].1 by {
            if i < front.len() {
                assert(front[i] == pending[i]);
                assert(pending[i].0 != pending[pending.len() - 1].0);
            }
        }
        assert forall|k: nat| pending_map(pending).contains_key(k) implies exists|i: int|
            0 <= i < pending.len() && (#[trigger] pending[i]).0 == k by {
            if k == pending.last().0 as nat {
                assert(pending[pending.len() - 1].0 == k);
            } else {
                assert(pending_map(front).contains_key(k));
                let i = choose|i: int| 0 <= i < front.len() && (#[trigger] front[i]).0 == k;
                assert(front[i] == pending[i]);
                assert(pending[i].0 == k);
            }
        }
    }
}

impl<O> View for PipelineStage<O> {
    type V = StageView<O>;

    closed spec fn view(&self) -> StageView<O> {
        StageView {
            workers: self.workers as nat,
            dispatched: self.dispatched as nat,
            released: self.released as nat,
            pending: pending_map(self.pending@),
        }
    }
}

impl<O> StageView<O> {
    /// The number of workers is between 1 and 64; no more results are
    /// released than items handed out; the items in flight are at most four for
    /// each worker; and every pending result belongs to an item in flight.
    pub open spec fn wf(&self) -> bool {
        &&& 1 <= self.workers <= MAX_WORKERS
        &&& self.released <= self.dispatched
        &&& self.dispatched - self.released <= IN_FLIGHT_PER_WORKER * self.workers
        &&& forall|k: nat|
            self.pending.contains_key(k) ==> self.released <= k < self.dispatched
    }

    /// Whether one more item can be handed out.
    pub open spec fn has_room(&self) -> bool {
        self.dispatched - self.released < IN_FLIGHT_PER_WORKER * self.workers
    }
}

impl<O> PipelineStage<O> {
    /// The stage is well-formed, and it holds at most one result for an index.
    pub closed spec fn inv(&self) -> bool {
        &&& self@.wf()
        &&& forall|i: int, j: int|
            0 <= i < j < self.pending@.len() ==> (#[trigger] self.pending@[i]).0 != (
            #[trigger] self.pending@[j]).0
    }

    /// A stage that keeps its invariant is well-formed.
    pub proof fn lemma_inv(&self)
        requires
            self.inv(),
        ensures
            self@.wf(),
    {
    }

    /// A stage of `workers` workers, which has to be a number from 1 to 64,
    /// with nothing handed out.
    pub fn new(workers: usize) -> (out: Result<Self, ConfigError>)
        ensures
            out is Ok <==> 1 <= workers <= MAX_WORKERS,
            out matches Err(e) ==> e == (ConfigError::WorkerCount { workers }),
            out matches Ok(stage) ==> stage@ == (StageView::<O> {
                workers: workers as nat,
                dispatched: 0,
                released: 0,
                pending: Map::empty(),
            }) && stage.inv(),
    {
        if workers < 1 || workers > MAX_WORKERS {
            return Err(ConfigError::WorkerCount { workers });
        }
        Ok(PipelineStage { workers, dispatched: 0, released: 0, pending: Vec::new() })
    }

    /// Whether the stage runs its transform on the pulling thread, which it
    /// does with a single worker.
    pub fn runs_inline(&self) -> (out: bool)
        ensures
            out == (self@.workers == 1),
    {
        self.workers == 1
    }

    /// The number of items handed out.
    pub fn dispatched(&self) -> (out: usize)
        ensures
            out == self@.dispatched,
    {
        self.dispatched
    }

    /// The number of results released.
    pub fn released(&self) -> (out: usize)
        ensures
            out == self@.released,
    {
        self.released
    }

    /// Whether the stage holds the result of the item of index `index`.
    #[verifier::loop_isolation(false)]
    pub fn holds(&self, index: usize) -> (out: bool)
        requires
            self.inv(),
        ensures
            out == self@.pending.contains_key(index as nat),
    {
        proof {
            lemma_pending_map(self.pending@);
        }
        let mut i: usize = 0;
        while i < self.pending.len()
            invariant
                i <= self.pending@.len(),
                forall|j: int| 0 <= j < i ==> (#[trigger] self.pending@[j]).0 != index,
            decreases self.pending@.len() - i,
        {
            if self.pending[i].0 == index {
                return true;
            }
            i += 1;
        }
        false
    }

    /// Hands out the next item, if there is room for it: the item gets the
    /// next index. Without room nothing changes.
    pub fn dispatch(&mut self) -> (out: Option<usize>)
        requires
            old(self).inv(),
            old(self)@.dispatched < usize::MAX,
        ensures
            final(self).inv(),
            out is Some <==> old(self)@.has_room(),
            out matches Some(index) ==> index == old(self)@.dispatched && final(self)@ == (StageView {
                dispatched: old(self)@.dispatched + 1,
                ..old(self)@
            }),
            out is None ==> final(self)@ == old(self)@,
    {
        if self.dispatched - self.released < IN_FLIGHT_PER_WORKER * self.workers {
            let index = self.dispatched;
            self.dispatched = self.dispatched + 1;
            Some(index)
        } else {
            None
        }
    }

    /// Takes the result of the item of index `index`, which is in flight
    /// and has no result yet.
    pub fn complete(&mut self, index: usize, result: O)
        requires
            old(self).inv(),
            old(self)@.released <= index < old(self)@.dispatched,
            !old(self)@.pending.contains_key(index as nat),
        ensures
            final(self).inv(),
            final(self)@ == (StageView {
                pending: old(self)@.pending.insert(index as nat, result),
                ..old(self)@
            }),
    {
        proof {
            lemma_pending_map(self.pending@);
        }
        let ghost before = self.pending@;
        self.pending.push((index, result));
        proof {
            assert(self.pending@.drop_last() =~= before);
            assert forall|i: int, j: int| 0 <= i < j < self.pending@.len() implies (
            #[trigger] self.pending@[i]).0 != (#[trigger] self.pending@[j]).0 by {
                assert(self.pending@[i] == before[i]);
                if j < before.len() {
                    assert(self.pending@[j] == before[j]);
                }
            }
        }
    }

    /// Releases the next result in the order of the indices, if it is there.
    pub fn release(&mut self) -> (out: Option<O>)
        requires
            old(self).inv(),
        ensures
            final(self).inv(),
            out is Some <==> old(self)@.pending.contains_key(old(self)@.released),
            out matches Some(result) ==> result == old(self)@.pending[old(self)@.released]
                && final(self)@ == (StageView {
                released: old(self)@.released + 1,
                pending: old(self)@.pending.remove(old(self)@.released),
                ..old(self)@
            }),
            out is None ==> final(self)@ == old(self)@,
    {
        proof {
            lemma_pending_map(self.pending@);
        }
        let ghost before = self.pending@;
        let mut i: usize = 0;
        while i < self.pending.len() && self.pending[i].0 != self.released
            invariant
                i <= self.pending@.len(),
                self.pending@ == before,
                forall|j: int| 0 <= j < i ==> (#[trigger] before[j]).0 != self.released,
            decreases self.pending@.len() - i,
        {
            i += 1;
        }
        if i == self.pending.len() {
            return None;
        }
        let (index, result) = self.pending.swap_remove(i);
        self.released = self.released + 1;
        proof {
            let after = self.pending@;
            assert forall|a: int, b: int| 0 <= a < b < after.len() implies (#[trigger] after[a]).0
                != (#[trigger] after[b]).0 by {
                let x = if a == i {
                    before.len() - 1
                } else {
                    a
                };
                let y = if b == i {
                    before.len() - 1
                } else {
                    b
                };
                assert(after[a] == before[x]);
                assert(after[b] == before[y]);
                if x < y {
                    assert(before[x].0 != before[y].0);
                } else {
                    assert(before[y].0 != before[x].0);
                }
            }
            lemma_pending_map(after);
            assert forall|k: nat|
                pending_map(after).contains_key(k) <==> pending_map(before).remove(
                    index as nat,
                ).contains_key(k) by {
                if pending_map(after).contains_key(k) {
                    let a = choose|a: int| 0 <= a < after.len() && (#[trigger] after[a]).0 == k;
                    let x = if a == i {
                        before.len() - 1
                    } else {
                        a
                    };
                    assert(after[a] == before[x]);
                    if x < i {
                        assert(before[x].0 != before[i as int].0);
                    } else if x > i {
                        assert(before[i as int].0 != before[x].0);
                    }
                }
                if pending_map(before).remove(index as nat).contains_key(k) {
                    let x = choose|x: int| 0 <= x < before.len() && (#[trigger] before[x]).0 == k;
                    let a = if x == before.len() - 1 {
                        i as int
                    } else {
                        x
                    };
                    assert(after[a] == before[x]);
                }
            }
            assert forall|k: nat| pending_map(after).contains_key(k) implies pending_map(after)[k]
                == pending_map(before).remove(index as nat)[k] by {
                let a = choose|a: int| 0 <= a < after.len() && (#[trigger] after[a]).0 == k;
                let x = if a == i {
                    before.len() - 1
                } else {
                    a
                };
                assert(after[a] == before[x]);
            }
            assert(pending_map(after) =~= pending_map(before).remove(index as nat));
        }
        Some(result)
    }
}


proof fn lemma_total_scaled(a: Seq<nat>, b: Seq<nat>, x: nat, y: nat)
    requires
        a.len() == b.len(),
        forall|i: int| 0 <= i < a.len() ==> (#[trigger] a[i]) * x >= b[i] * y,
    ensures
        total(a) * x >= total(b) * y,
    decreases a.len(),
{
    if a.len() > 0 {
        assert forall|i: int| 0 <= i < a.drop_last().len() implies (#[trigger] a.drop_last()[i])
            * x >= b.drop_last()[i] * y by {
            assert(a.drop_last()[i] == a[i]);
            assert(b.drop_last()[i] == b[i]);
            assert(a[i] * x >= b[i] * y);
        }
        lemma_total_scaled(a.drop_last(), b.drop_last(), x, y);
        assert(a[a.len() - 1] * x >= b[b.len() - 1] * y);
        assert(total(a) * x >= total(b) * y) by (nonlinear_arith)
            requires
                total(a) == total(a.drop_last()) + a.last(),
                total(b) == total(b.drop_last()) + b.last(),
                total(a.drop_last()) * x >= total(b.drop_last()) * y,
                a.last() * x >= b.last() * y,
        ;
    } else {
        assert(total(a) * x == 0) by (nonlinear_arith)
            requires
                total(a) == 0,
        ;
        assert(total(b) * y == 0) by (nonlinear_arith)
            requires
                total(b) == 0,
        ;
    }
}

/// The lower bound of a strategy is one: if every source holds at least
/// `lens[i]` items, the mixed stream, which holds the items of all sources,
/// holds at least `strategy_min_len` items.
pub proof fn lemma_min_len_is_lower_bound(lens: Seq<nat>, strategy: TextIterationStrategy)
    requires
        strategy.fits(lens.len()),
    ensures
        strategy_min_len(lens, strategy) <= total(lens),
{
    match strategy {
        TextIterationStrategy::Sequential => {},
        TextIterationStrategy::Interleaved => {
            let m = seq_min(lens);
            lemma_seq_min(lens);
            let ones = Seq::new(lens.len(), |i: int| 1nat);
            assert forall|i: int| 0 <= i < lens.len() implies (#[trigger] lens[i]) * 1 >= ones[i]
                * m by {
                assert(ones[i] * m == m) by (nonlinear_arith)
                    requires
                        ones[i] == 1,
                ;
            }
            lemma_total_scaled(lens, ones, 1, m);
            lemma_total_ones(lens.len());
            assert(total(lens) * 1 == total(lens)) by (nonlinear_arith);
        },
        TextIterationStrategy::Weighted(_) => {
            let w = strategy.weights();
            let shares = Seq::new(lens.len(), |i: int| weighted_share(lens[i], w, i));
            let m = seq_min(shares);
            let s = total(w);
            lemma_seq_min(shares);
            if lens.len() > 0 {
                assert forall|i: int| 0 <= i < lens.len() implies (#[trigger] lens[i]) * s >= w[i]
                    * m by {
                    assert(shares[i] >= m);
                    assert(w[i] > 0);
                    lemma_fundamental_div_mod((lens[i] * s) as int, w[i] as int);
                    assert(lens[i] * s >= w[i] * m) by (nonlinear_arith)
                        requires
                            lens[i] * s == w[i] * ((lens[i] * s) / w[i]) + (lens[i] * s) % w[i],
                            (lens[i] * s) % w[i] >= 0,
                            (lens[i] * s) / w[i] >= m,
                            w[i] > 0,
                    ;
                }
                lemma_total_scaled(lens, w, s, m);
                lemma_total_update(w, 0, w[0]);
                assert(s > 0);
                assert(total(lens) >= m) by (nonlinear_arith)
                    requires
                        total(lens) * s >= s * m,
                        s > 0,
                ;
            }
        },
    }
}

proof fn lemma_total_ones(n: nat)
    ensures
        total(Seq::new(n, |i: int| 1nat)) == n,
    decreases n,
{
    if n > 0 {
        lemma_total_ones((n - 1) as nat);
        assert(Seq::new(n, |i: int| 1nat).drop_last() =~= Seq::new((n - 1) as nat, |i: int| 1nat));
    }
}

/// The lower bound that a strategy gives for the mixed stream, from lower
/// bounds for the sources; the largest `usize` where it is larger than that.
pub fn min_len(min_lens: &Vec<usize>, strategy: &TextIterationStrategy) -> (out: usize)
    requires
        strategy.fits(min_lens@.len()),
    ensures
        out == saturated(strategy_min_len(nats(min_lens@), *strategy)),
{
    let ghost lens = nats(min_lens@);
    let n = min_lens.len();
    match strategy {
        TextIterationStrategy::Sequential => {
            let mut sum: usize = 0;
            let mut i: usize = 0;
            proof {
                assert(lens.take(0) =~= Seq::<nat>::empty());
            }
            while i < n
                invariant
                    i <= n,
                    n == min_lens@.len(),
                    lens == nats(min_lens@),
                    sum == saturated(total(lens.take(i as int))),
                decreases n - i,
            {
                proof {
                    let next = lens.take(i as int + 1);
                    assert(next.drop_last() =~= lens.take(i as int));
                    assert(next.last() == min_lens@[i as int] as nat);
                }
                sum = sum.saturating_add(min_lens[i]);
                i += 1;
            }
            proof {
                assert(lens.take(n as int) =~= lens);
            }
            sum
        },
        TextIterationStrategy::Interleaved => {
            let mut least: usize = 0;
            let mut i: usize = 0;
            proof {
                assert(lens.take(0) =~= Seq::<nat>::empty());
            }
            while i < n
                invariant
                    i <= n,
                    n == min_lens@.len(),
                    lens == nats(min_lens@),
                    least == seq_min(lens.take(i as int)),
                decreases n - i,
            {
                proof {
                    let next = lens.take(i as int + 1);
                    assert(next.drop_last() =~= lens.take(i as int));
                    assert(next.last() == min_lens@[i as int] as nat);
                }
                if i == 0 || min_lens[i] <= least {
                    least = min_lens[i];
                }
                i += 1;
            }
            proof {
                assert(lens.take(n as int) =~= lens);
            }
            match n.checked_mul(least) {
                Some(product) => product,
                None => usize::MAX,
            }
        },
        TextIterationStrategy::Weighted(weights) => {
            let ghost w = strategy.weights();
            let ghost shares = Seq::new(lens.len(), |i: int| weighted_share(lens[i], w, i));
            let mut sum: u64 = 0;
            let mut k: usize = 0;
            proof {
                assert(w.take(0) =~= Seq::<nat>::empty());
            }
            while k < n
                invariant
                    k <= n,
                    n == weights@.len(),
                    w == Seq::new(weights@.len(), |i: int| weights@[i] as nat),
                    total(w) <= u64::MAX,
                    sum == total(w.take(k as int)),
                decreases n - k,
            {
                proof {
                    let next = w.take(k as int + 1);
                    assert(next.drop_last() =~= w.take(k as int));
                    assert(next.last() == weights@[k as int] as nat);
                    lemma_total_take(w, k as int + 1);
                }
                sum = sum + weights[k];
                k += 1;
            }
            proof {
                assert(w.take(n as int) =~= w);
                assert(shares.take(0) =~= Seq::<nat>::empty());
            }
            let mut least: u128 = 0;
            let mut i: usize = 0;
            while i < n
                invariant
                    i <= n,
                    n == min_lens@.len(),
                    n == weights@.len(),
                    lens == nats(min_lens@),
                    w == Seq::new(weights@.len(), |i: int| weights@[i] as nat),
                    forall|j: int| 0 <= j < n ==> (#[trigger] w[j]) > 0,
                    shares == Seq::new(lens.len(), |i: int| weighted_share(lens[i], w, i)),
                    sum == total(w),
                    least == seq_min(shares.take(i as int)),
                decreases n - i,
            {
                proof {
                    let next = shares.take(i as int + 1);
                    assert(next.drop_last() =~= shares.take(i as int));
                    assert(next.last() == weighted_share(lens[i as int], w, i as int));
                    assert(w[i as int] > 0);
                    assert(min_lens@[i as int] * sum <= u128::MAX) by (nonlinear_arith)
                        requires
                            min_lens@[i as int] <= 0xFFFF_FFFF_FFFF_FFFFu64,
                            sum <= 0xFFFF_FFFF_FFFF_FFFFu64,
                            u128::MAX == 0xFFFF_FFFF_FFFF_FFFF_FFFF_FFFF_FFFF_FFFFu128,
                    ;
                }
                let share: u128 = (min_lens[i] as u128) * (sum as u128) / (weights[i] as u128);
                if i == 0 || share <= least {
                    least = share;
                }
                i += 1;
            }
            proof {
                assert(shares.take(n as int) =~= shares);
            }
            if least > usize::MAX as u128 {
                usize::MAX
            } else {
                least as usize
            }
        },
    }
}


/// Several sources held in memory, to be mixed into one stream.
#[derive(Debug)]
pub struct TextIterator<T> {
    sources: Vec<Vec<T>>,
    strategy: TextIterationStrategy,
    seed: Option<u64>,
}

/// What a `TextIterator` holds.
pub struct TextIteratorView<T> {
    pub sources: Seq<Seq<T>>,
    pub strategy: TextIterationStrategy,
    pub seed: Option<u64>,
}

impl<T> View for TextIterator<T> {
    type V = TextIteratorView<T>;

    closed spec fn view(&self) -> TextIteratorView<T> {
        TextIteratorView {
            sources: source_views(self.sources@),
            strategy: self.strategy,
            seed: self.seed,
        }
    }
}

/// What is wrong with the sources of an iterator, if anything: there is
/// none, or the strategy does not fit their number.
pub open spec fn iterator_error(sources: nat, strategy: TextIterationStrategy) -> Option<ConfigError> {
    if sources == 0 {
        Some(ConfigError::NoSources)
    } else if !strategy.fits(sources) {
        Some(ConfigError::Weights)
    } else {
        None
    }
}

impl<T> TextIterator<T> {
    #[verifier::type_invariant]
    spec fn inv(&self) -> bool {
        self.sources@.len() > 0 && self.strategy.fits(self.sources@.len())
    }

    /// An iterator over `sources`: there has to be a source, and a weighted
    /// strategy has to fit the number of sources.
    pub fn new(sources: Vec<Vec<T>>, strategy: TextIterationStrategy, seed: Option<u64>) -> (out:
        Result<Self, ConfigError>)
        ensures
            out matches Err(e) ==> iterator_error(sources@.len(), strategy) == Some(e),
            out matches Ok(it) ==> iterator_error(sources@.len(), strategy) is None && it@ == (
            TextIteratorView { sources: source_views(sources@), strategy, seed }),
    {
        if sources.len() == 0 {
            return Err(ConfigError::NoSources);
        }
        if !strategy.check(sources.len()) {
            return Err(ConfigError::Weights);
        }
        Ok(TextIterator { sources, strategy, seed })
    }

    /// The lower bound that the strategy gives for the number of items of the stream.
    pub fn min_len(&self) -> (out: usize)
        ensures
            out == saturated(strategy_min_len(source_lengths(self@.sources), self@.strategy)),
    {
        proof {
            use_type_invariant(self);
        }
        let mut lens: Vec<usize> = Vec::new();
        let mut s: usize = 0;
        while s < self.sources.len()
            invariant
                s <= self.sources@.len(),
                lens@.len() == s,
                forall|i: int| 0 <= i < s ==> (#[trigger] lens@[i]) == self.sources@[i]@.len(),
            decreases self.sources@.len() - s,
        {
            lens.push(self.sources[s].len());
            s += 1;
        }
        proof {
            assert(nats(lens@) =~= source_lengths(source_views(self.sources@)));
        }
        min_len(&lens, &self.strategy)
    }

    /// The items of the sources, mixed into one stream.
    pub fn into_stream(self) -> (out: Vec<T>)
        ensures
            out@ == mixed_stream(self@.sources, self@.strategy, self@.seed),
    {
        proof {
            use_type_invariant(&self);
        }
        mix(self.sources, &self.strategy, self.seed)
    }
}


proof fn lemma_scan_total(sizes: Seq<nat>, limit_type: BatchLimitType, limit: nat)
    ensures
        total(scan(sizes, limit_type, limit).closed) + scan(sizes, limit_type, limit).count
            == sizes.len(),
        total(batch_lengths(sizes, limit_type, limit)) == sizes.len(),
    decreases sizes.len(),
{
    if sizes.len() > 0 {
        lemma_scan_total(sizes.drop_last(), limit_type, limit);
        let before = scan(sizes.drop_last(), limit_type, limit);
        assert(before.closed.push(before.count).drop_last() =~= before.closed);
    }
    let end = scan(sizes, limit_type, limit);
    assert(end.closed.push(end.count).drop_last() =~= end.closed);
}

proof fn lemma_cut_covers<T>(items: Seq<T>, lengths: Seq<nat>)
    requires
        total(lengths) == items.len(),
    ensures
        flattened(cut(items, lengths)) == items,
        cut(items, lengths).len() == lengths.len(),
    decreases lengths.len(),
{
    if lengths.len() > 0 {
        let last = lengths.last() as int;
        let front = items.take(items.len() - last);
        lemma_cut_covers(front, lengths.drop_last());
        let groups = cut(items, lengths);
        assert(groups.drop_last() =~= cut(front, lengths.drop_last()));
        assert(flattened(groups) =~= items);
    } else {
        assert(items =~= Seq::<T>::empty());
    }
}

/// The groups of the scan hold the items, in their order.
pub proof fn lemma_split_covers<T: ItemSize>(items: Seq<T>, limit_type: BatchLimitType, limit: nat)
    ensures
        flattened(split(items, limit_type, limit)) == items,
{
    lemma_scan_total(sizes_of(items), limit_type, limit);
    lemma_cut_covers(items, batch_lengths(sizes_of(items), limit_type, limit));
}

proof fn lemma_flattened_insert<T>(groups: Seq<Seq<T>>, p: int, group: Seq<T>)
    requires
        0 <= p <= groups.len(),
    ensures
        flattened(groups.insert(p, group)).to_multiset() == flattened(groups).to_multiset().add(
            group.to_multiset(),
        ),
{
    let head = groups.take(p);
    let tail = groups.skip(p);
    assert(groups =~= head + tail);
    assert(groups.insert(p, group) =~= head.push(group) + tail);
    lemma_flattened_concat(head, tail);
    lemma_flattened_concat(head.push(group), tail);
    assert(head.push(group).drop_last() =~= head);
    assert(flattened(head.push(group)) == flattened(head) + group);
    lemma_multiset_commutative(flattened(head), flattened(tail));
    lemma_multiset_commutative(flattened(head) + group, flattened(tail));
    lemma_multiset_commutative(flattened(head), group);
    assert(flattened(groups.insert(p, group)).to_multiset() =~= flattened(
        groups,
    ).to_multiset().add(group.to_multiset()));
}

proof fn lemma_shuffled_flattened<T>(groups: Seq<Seq<T>>, state: u64)
    ensures
        flattened(shuffled(groups, state)).to_multiset() == flattened(groups).to_multiset(),
    decreases groups.len(),
{
    if groups.len() > 0 {
        let front = groups.drop_last();
        lemma_shuffled_flattened(front, state);
        lemma_shuffled_permutes(front, state);
        let p = (drawn(state, groups.len()) as nat % groups.len()) as int;
        lemma_flattened_insert(shuffled(front, state), p, groups.last());
        lemma_multiset_commutative(flattened(front), groups.last());
    } else {
        assert(shuffled(groups, state) =~= groups);
    }
}

/// Batching keeps the items: the batches hold every item of the stream as
/// often as the stream does, whatever is sorted or shuffled.
pub proof fn lemma_batches_keep_items<T: ItemSize>(items: Seq<T>, params: BatcherParams, state: u64)
    requires
        params.valid(),
    ensures
        flattened(batches_from(items, params, state)).to_multiset() == items.to_multiset(),
    decreases items.len(),
{
    assert(params.window() >= 1) by (nonlinear_arith)
        requires
            params.window() == params.prefetch_factor * params.limit,
            params.prefetch_factor >= 1,
            params.limit >= 1,
    ;
    if items.len() > 0 {
        let width = if params.window() < items.len() {
            params.window() as int
        } else {
            items.len() as int
        };
        let window = items.take(width);
        let rest = items.skip(width);
        let first = window_batches(window, params, state);
        let others = batches_from(rest, params, state_behind(window, params, state));
        lemma_batches_keep_items(rest, params, state_behind(window, params, state));
        lemma_flattened_concat(first, others);
        let prepared = if params.sort {
            sorted_by_size(window)
        } else {
            window
        };
        if params.sort {
            lemma_sorted_by_size(window);
        }
        lemma_split_covers(prepared, params.limit_type, params.limit);
        if params.shuffle {
            lemma_shuffled_flattened(split(prepared, params.limit_type, params.limit), state);
        }
        assert(flattened(first).to_multiset() == window.to_multiset());
        lemma_multiset_commutative(flattened(first), flattened(others));
        lemma_multiset_commutative(window, rest);
        assert(items =~= window + rest);
    } else {
        assert(flattened(batches_from(items, params, state)) =~= items);
    }
}


/// The first `k` items of every source, or all of them where it has fewer.
spec fn heads<T>(sources: Seq<Seq<T>>, k: nat) -> Seq<Seq<T>> {
    Seq::new(
        sources.len(),
        |i: int|
            sources[i].take(
                if k <= sources[i].len() {
                    k as int
                } else {
                    sources[i].len() as int
                },
            ),
    )
}

proof fn lemma_round_adds<T>(sources: Seq<Seq<T>>, k: nat)
    ensures
        flattened(heads(sources, k + 1)).to_multiset() == flattened(
            heads(sources, k),
        ).to_multiset().add(round(sources, k as int).to_multiset()),
    decreases sources.len(),
{
    broadcast use vstd::seq_lib::group_to_multiset_ensures;

    if sources.len() > 0 {
        let front = sources.drop_last();
        let last = sources.last();
        lemma_round_adds(front, k);
        assert(heads(sources, k).drop_last() =~= heads(front, k));
        assert(heads(sources, k + 1).drop_last() =~= heads(front, k + 1));
        let before = flattened(heads(front, k));
        let after = flattened(heads(front, k + 1));
        lemma_multiset_commutative(before, heads(sources, k).last());
        lemma_multiset_commutative(after, heads(sources, k + 1).last());
        if k < last.len() {
            assert(heads(sources, k + 1).last() =~= heads(sources, k).last().push(last[k as int]));
            assert(round(sources, k as int) == round(front, k as int).push(last[k as int]));
            assert(flattened(heads(sources, k + 1)).to_multiset() =~= flattened(
                heads(sources, k),
            ).to_multiset().add(round(sources, k as int).to_multiset()));
        } else {
            assert(heads(sources, k + 1).last() =~= heads(sources, k).last());
            assert(flattened(heads(sources, k + 1)).to_multiset() =~= flattened(
                heads(sources, k),
            ).to_multiset().add(round(sources, k as int).to_multiset()));
        }
    } else {
        assert(flattened(heads(sources, k + 1)).to_multiset() =~= flattened(
            heads(sources, k),
        ).to_multiset().add(round(sources, k as int).to_multiset()));
    }
}

proof fn lemma_interleaved_heads<T>(sources: Seq<Seq<T>>, rounds: nat)
    ensures
        interleaved(sources, rounds).to_multiset() == flattened(
            heads(sources, rounds),
        ).to_multiset(),
    decreases rounds,
{
    broadcast use vstd::seq_lib::group_to_multiset_ensures;

    if rounds > 0 {
        lemma_interleaved_heads(sources, (rounds - 1) as nat);
        lemma_round_adds(sources, (rounds - 1) as nat);
        lemma_multiset_commutative(
            interleaved(sources, (rounds - 1) as nat),
            round(sources, rounds - 1),
        );
    } else {
        lemma_flattened_empties(heads(sources, 0));
    }
}

proof fn lemma_flattened_empties<T>(groups: Seq<Seq<T>>)
    requires
        forall|i: int| 0 <= i < groups.len() ==> (#[trigger] groups[i]).len() == 0,
    ensures
        flattened(groups) == Seq::<T>::empty(),
    decreases groups.len(),
{
    if groups.len() > 0 {
        assert forall|i: int| 0 <= i < groups.drop_last().len() implies (
        #[trigger] groups.drop_last()[i]).len() == 0 by {
            assert(groups.drop_last()[i] == groups[i]);
        }
        lemma_flattened_empties(groups.drop_last());
        assert(groups.last() == groups[groups.len() - 1]);
        assert(flattened(groups) =~= Seq::<T>::empty());
    }
}

/// What is left of every source when `taken[i]` of its items are taken.
spec fn tails<T>(sources: Seq<Seq<T>>, taken: Seq<nat>) -> Seq<Seq<T>> {
    Seq::new(sources.len(), |i: int| sources[i].skip(taken[i] as int))
}

proof fn lemma_flattened_shortened<T>(groups: Seq<Seq<T>>, i: int)
    requires
        0 <= i < groups.len(),
        groups[i].len() > 0,
    ensures
        flattened(groups).to_multiset() == flattened(
            groups.update(i, groups[i].drop_first()),
        ).to_multiset().insert(groups[i][0]),
    decreases groups.len(),
{
    broadcast use vstd::seq_lib::group_to_multiset_ensures;

    let shorter = groups.update(i, groups[i].drop_first());
    let front = groups.drop_last();
    lemma_multiset_commutative(flattened(front), groups.last());
    lemma_multiset_commutative(flattened(shorter.drop_last()), shorter.last());
    if i < groups.len() - 1 {
        lemma_flattened_shortened(front, i);
        assert(shorter.drop_last() =~= front.update(i, front[i].drop_first()));
        assert(flattened(groups).to_multiset() =~= flattened(shorter).to_multiset().insert(
            groups[i][0],
        ));
    } else {
        assert(shorter.drop_last() =~= front);
        assert(groups.last() =~= seq![groups[i][0]] + groups[i].drop_first());
        lemma_multiset_commutative(seq![groups[i][0]], groups[i].drop_first());
        assert(seq![groups[i][0]].to_multiset() =~= vstd::multiset::Multiset::<T>::empty().insert(groups[i][0]));
        assert(flattened(groups).to_multiset() =~= flattened(shorter).to_multiset().insert(
            groups[i][0],
        ));
    }
}

proof fn lemma_total_zero(s: Seq<nat>)
    requires
        total(s) == 0,
    ensures
        forall|i: int| 0 <= i < s.len() ==> (#[trigger] s[i]) == 0,
    decreases s.len(),
{
    if s.len() > 0 {
        lemma_total_zero(s.drop_last());
        assert forall|i: int| 0 <= i < s.len() implies (#[trigger] s[i]) == 0 by {
            if i < s.len() - 1 {
                assert(s.drop_last()[i] == s[i]);
            }
        }
    }
}

proof fn lemma_pick_exists(weights: Seq<nat>, target: nat)
    requires
        target < total(weights),
    ensures
        0 <= pick(weights, target) < weights.len(),
        weights[pick(weights, target) as int] > 0,
    decreases weights.len(),
{
    if weights.len() > 1 && target < total(weights.drop_last()) {
        lemma_pick_exists(weights.drop_last(), target);
        let i = pick(weights.drop_last(), target) as int;
        assert(weights.drop_last()[i] == weights[i]);
    } else if weights.len() == 1 {
        assert(weights.drop_last() =~= Seq::<nat>::empty());
        assert(total(weights.drop_last()) == 0);
        assert(weights.last() == weights[0]);
    } else {
        assert(weights.last() == weights[weights.len() - 1]);
    }
}

proof fn lemma_weighted_keeps_items<T>(
    sources: Seq<Seq<T>>,
    weights: Seq<nat>,
    taken: Seq<nat>,
    state: u64,
    steps: nat,
)
    requires
        weights.len() == sources.len(),
        taken.len() == sources.len(),
        forall|i: int| 0 <= i < sources.len() ==> (#[trigger] weights[i]) > 0,
        forall|i: int| 0 <= i < sources.len() ==> (#[trigger] taken[i]) <= sources[i].len(),
        steps == total(Seq::new(sources.len(), |i: int| (sources[i].len() - taken[i]) as nat)),
    ensures
        weighted(sources, weights, taken, state, steps).to_multiset() == flattened(
            tails(sources, taken),
        ).to_multiset(),
    decreases steps,
{
    broadcast use vstd::seq_lib::group_to_multiset_ensures;

    let active = active_weights(source_lengths(sources), taken, weights);
    let left = Seq::new(sources.len(), |i: int| (sources[i].len() - taken[i]) as nat);
    if total(active) == 0 {
        lemma_total_zero(active);
        assert forall|i: int| 0 <= i < sources.len() implies (#[trigger] tails(
            sources,
            taken,
        )[i]).len() == 0 by {
            assert(active[i] == 0);
            assert(weights[i] > 0);
        }
        lemma_flattened_empties(tails(sources, taken));
    } else {
        let target = drawn(state, 1) as nat % total(active);
        lemma_pick_exists(active, target);
        let i = pick(active, target) as int;
        assert(taken[i] < sources[i].len());
        lemma_total_update(left, i, (left[i] - 1) as nat);
        let next = taken.update(i, taken[i] + 1);
        assert(Seq::new(sources.len(), |j: int| (sources[j].len() - next[j]) as nat)
            =~= left.update(i, (left[i] - 1) as nat));
        lemma_weighted_keeps_items(sources, weights, next, next_state(state), (steps - 1) as nat);
        let rest = tails(sources, taken);
        assert forall|j: int| 0 <= j < sources.len() implies rest.update(
            i,
            rest[i].drop_first(),
        )[j] == tails(sources, next)[j] by {
            if j == i {
                assert(sources[i].skip(taken[i] as int).drop_first() =~= sources[i].skip(
                    taken[i] as int + 1,
                ));
            }
        }
        assert(rest.update(i, rest[i].drop_first()) =~= tails(sources, next));
        lemma_flattened_shortened(rest, i);
        let item = sources[i][taken[i] as int];
        assert(rest[i][0] == item);
        lemma_multiset_commutative(
            seq![item],
            weighted(sources, weights, next, next_state(state), (steps - 1) as nat),
        );
        assert(seq![item].to_multiset() =~= vstd::multiset::Multiset::<T>::empty().insert(item));
        assert(weighted(sources, weights, taken, state, steps).to_multiset() =~= flattened(
            rest,
        ).to_multiset());
    }
}

/// Mixing keeps the items: the stream holds every item of every source as
/// often as the sources do, whatever the strategy and the seed.
pub proof fn lemma_mixed_keeps_items<T>(
    sources: Seq<Seq<T>>,
    strategy: TextIterationStrategy,
    seed: Option<u64>,
)
    requires
        strategy.fits(sources.len()),
    ensures
        mixed_stream(sources, strategy, seed).to_multiset() == flattened(sources).to_multiset(),
{
    match strategy {
        TextIterationStrategy::Sequential => {},
        TextIterationStrategy::Interleaved => {
            let lens = source_lengths(sources);
            let rounds = seq_max(lens);
            lemma_interleaved_heads(sources, rounds);
            lemma_seq_max(lens);
            assert forall|i: int| 0 <= i < sources.len() implies heads(sources, rounds)[i]
                == sources[i] by {
                assert(lens[i] <= rounds);
                assert(sources[i].take(sources[i].len() as int) =~= sources[i]);
            }
            assert(heads(sources, rounds) =~= sources);
        },
        TextIterationStrategy::Weighted(_) => {
            let zeros = Seq::new(sources.len(), |i: int| 0nat);
            assert(Seq::new(sources.len(), |i: int| (sources[i].len() - zeros[i]) as nat)
                =~= source_lengths(sources));
            lemma_weighted_keeps_items(
                sources,
                strategy.weights(),
                zeros,
                match seed {
                    Some(s) => s,
                    None => 0,
                },
                total(source_lengths(sources)),
            );
            assert forall|i: int| 0 <= i < sources.len() implies tails(sources, zeros)[i]
                == sources[i] by {
                assert(sources[i].skip(0) =~= sources[i]);
            }
            assert(tails(sources, zeros) =~= sources);
        },
    }
}

} // verus!
