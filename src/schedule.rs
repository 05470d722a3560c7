use vstd::prelude::*;

verus! {

/// How many intents a run of `num_blocks` blocks of `per_block` intents asks for;
/// `None` where the product exceeds `usize`.
pub fn spam_total(per_block: usize, num_blocks: usize) -> (r: Option<usize>)
    ensures
        per_block * num_blocks <= usize::MAX ==> r == Some((per_block * num_blocks) as usize),
        per_block * num_blocks > usize::MAX ==> r.is_none(),
{
    per_block.checked_mul(num_blocks)
}

pub open spec fn min(a: int, b: int) -> int {
    if a <= b {
        a
    } else {
        b
    }
}

/// Index of the first intent of batch `i`.
pub open spec fn batch_start(i: nat, per_block: nat, total: nat) -> int {
    min((i * per_block) as int, total as int)
}

/// Index one past the last intent of batch `i`.
pub open spec fn batch_end(i: nat, per_block: nat, total: nat) -> int {
    min(((i + 1) * per_block) as int, total as int)
}

/// The bounds of the batch dispatched on block event `i` (from 0) when `total`
/// intents are cut in batches of `per_block`, in generation order; a batch past
/// the last intent is empty.
pub fn batch_bounds(i: usize, per_block: usize, total: usize) -> (r: (usize, usize))
    requires
        (i + 1) * per_block <= usize::MAX,
    ensures
        r.0 == batch_start(i as nat, per_block as nat, total as nat),
        r.1 == batch_end(i as nat, per_block as nat, total as nat),
        r.0 <= r.1 <= total,
{
    assert(i * per_block <= (i + 1) * per_block) by (nonlinear_arith);
    assert((i + 1) * per_block == i * per_block + per_block) by (nonlinear_arith);
    let lo = i * per_block;
    let hi = lo + per_block;
    let start = if lo <= total {
        lo
    } else {
        total
    };
    let end = if hi <= total {
        hi
    } else {
        total
    };
    (start, end)
}

/// How many intents the first `n` block events dispatch.
pub open spec fn dispatched(n: nat, per_block: nat, total: nat) -> int
    decreases n,
{
    if n == 0 {
        0
    } else {
        dispatched((n - 1) as nat, per_block, total) + batch_end((n - 1) as nat, per_block, total)
            - batch_start((n - 1) as nat, per_block, total)
    }
}

/// Over `n` block events with `per_block` intents each, exactly `n * per_block`
/// intents are dispatched, fewer only where fewer were generated; each batch
/// starts where the one before ended, so none is skipped or sent twice.
pub proof fn lemma_dispatch_count(n: nat, per_block: nat, total: nat)
    ensures
        dispatched(n, per_block, total) == min((n * per_block) as int, total as int),
        n > 0 ==> batch_start(n, per_block, total) == batch_end((n - 1) as nat, per_block, total),
    decreases n,
{
    if n > 0 {
        let m = (n - 1) as nat;
        lemma_dispatch_count(m, per_block, total);
        assert((m + 1) * per_block == n * per_block);
        assert(batch_start(m, per_block, total) == min((m * per_block) as int, total as int));
        assert(batch_end(m, per_block, total) == min((n * per_block) as int, total as int));
        assert(dispatched(n, per_block, total) == dispatched(m, per_block, total) + batch_end(
            m,
            per_block,
            total,
        ) - batch_start(m, per_block, total));
    } else {
        assert(n * per_block == 0) by (nonlinear_arith)
            requires
                n == 0,
        ;
    }
}

} // verus!
