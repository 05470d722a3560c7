use vstd::prelude::*;

verus! {

/// One gwei in wei: the step between the gas prices of neighbouring batch positions.
pub const GWEI: u128 = 1_000_000_000;

/// Why call data yields no gas-limit bucket.
#[derive(Clone, Copy, Debug, PartialEq, Eq, Structural)]
pub enum SelectorError {
    /// Call data of one to three bytes: too short to hold a function selector.
    Malformed,
}

/// The big-endian value of the first four bytes of `data`.
pub open spec fn selector_value(data: Seq<u8>) -> nat
    recommends
        data.len() >= 4,
{
    data[0] as nat * 16777216 + data[1] as nat * 65536 + data[2] as nat * 256 + data[3] as nat
}

/// The gas-limit bucket of a call: none for a plain transfer (no call data), the
/// function selector for a contract call.
pub open spec fn bucket_of(input: Option<Seq<u8>>) -> Result<Option<u32>, SelectorError> {
    match input {
        None => Ok(None),
        Some(d) => if d.len() == 0 {
            Ok(None)
        } else if d.len() < 4 {
            Err(SelectorError::Malformed)
        } else {
            Ok(Some(selector_value(d) as u32))
        },
    }
}

/// The gas-limit bucket of a transaction with call data `input`.
pub fn selector_bucket(input: &Option<Vec<u8>>) -> (r: Result<Option<u32>, SelectorError>)
    ensures
        r == bucket_of(match input {
            Some(d) => Some(d@),
            None => None,
        }),
{
    match input {
        None => Ok(None),
        Some(d) => {
            if d.len() == 0 {
                Ok(None)
            } else if d.len() < 4 {
                Err(SelectorError::Malformed)
            } else {
                let b0 = d[0] as u32;
                let b1 = d[1] as u32;
                let b2 = d[2] as u32;
                let b3 = d[3] as u32;
                assert(b0 * 16777216 + b1 * 65536 + b2 * 256 + b3 <= u32::MAX) by (nonlinear_arith)
                    requires
                        b0 <= 255,
                        b1 <= 255,
                        b2 <= 255,
                        b3 <= 255,
                ;
                Ok(Some(b0 * 16777216 + b1 * 65536 + b2 * 256 + b3))
            }
        },
    }
}

/// The gas price of batch position `pos` when the block's base price is `base`.
pub open spec fn escalated(base: u128, pos: nat) -> int {
    base + pos * GWEI
}

/// The gas price of batch position `pos`: `base` plus one gwei per earlier position;
/// `None` where that exceeds `u128`.
pub fn escalated_gas_price(base: u128, pos: usize) -> (r: Option<u128>)
    ensures
        escalated(base, pos as nat) <= u128::MAX ==> r == Some(escalated(base, pos as nat) as u128),
        escalated(base, pos as nat) > u128::MAX ==> r.is_none(),
{
    let step = (pos as u128).checked_mul(GWEI);
    match step {
        None => {
            assert(pos * GWEI > u128::MAX);
            None
        },
        Some(s) => base.checked_add(s),
    }
}

/// Gas prices inside one block strictly increase with the batch position.
pub proof fn lemma_escalation_increasing(base: u128, i: nat, j: nat)
    requires
        i < j,
    ensures
        escalated(base, i) < escalated(base, j),
        escalated(base, j) - escalated(base, i) == (j - i) * GWEI,
{
    assert(j * GWEI - i * GWEI == (j - i) * GWEI) by (nonlinear_arith);
    assert((j - i) * GWEI >= GWEI) by (nonlinear_arith)
        requires
            j - i >= 1,
    ;
}

/// The cache `g` after an estimate `limit` for `bucket` arrives: a bucket that has a
/// limit keeps it.
pub open spec fn with_estimate(g: Map<Option<u32>, u128>, bucket: Option<u32>, limit: u128) -> Map<
    Option<u32>,
    u128,
> {
    if g.contains_key(bucket) {
        g
    } else {
        g.insert(bucket, limit)
    }
}

/// A bucket is estimated at most once per run: once an estimate is stored the bucket
/// is cached, and any later estimate for it changes nothing.
pub proof fn lemma_bucket_estimated_once(
    g: Map<Option<u32>, u128>,
    bucket: Option<u32>,
    first: u128,
    later: u128,
)
    ensures
        with_estimate(g, bucket, first).contains_key(bucket),
        with_estimate(with_estimate(g, bucket, first), bucket, later) == with_estimate(g, bucket, first),
{
}

/// Gas-limit estimates by bucket: filled once per bucket and then reused.
pub struct GasLimitCache {
    entries: Vec<(Option<u32>, u128)>,
    model: Ghost<Map<Option<u32>, u128>>,
}

fn same_bucket(a: Option<u32>, b: Option<u32>) -> (r: bool)
    ensures
        r == (a == b),
{
    match (a, b) {
        (None, None) => true,
        (Some(x), Some(y)) => x == y,
        _ => false,
    }
}

impl GasLimitCache {
    /// The cached limit of each bucket estimated so far.
    pub closed spec fn view(&self) -> Map<Option<u32>, u128> {
        self.model@
    }

    pub closed spec fn wf(&self) -> bool {
        &&& forall|i: int, j: int|
            0 <= i < j < self.entries@.len() ==> self.entries@[i].0 != self.entries@[j].0
        &&& forall|i: int|
            0 <= i < self.entries@.len() ==> {
                &&& #[trigger] self.model@.contains_key(self.entries@[i].0)
                &&& self.model@[self.entries@[i].0] == self.entries@[i].1
            }
        &&& forall|k: Option<u32>|
            #[trigger] self.model@.contains_key(k) ==> exists|i: int|
                0 <= i < self.entries@.len() && self.entries@[i].0 == k
    }

    /// A cache with no estimate.
    pub fn new() -> (r: GasLimitCache)
        ensures
            r.wf(),
            r@ == Map::<Option<u32>, u128>::empty(),
    {
        GasLimitCache { entries: Vec::new(), model: Ghost(Map::empty()) }
    }

    /// The cached limit of `bucket`, if one was estimated.
    pub fn limit_for(&self, bucket: Option<u32>) -> (r: Option<u128>)
        requires
            self.wf(),
        ensures
            match r {
                Some(g) => self@.contains_key(bucket) && self@[bucket] == g,
                None => !self@.contains_key(bucket),
            },
    {
        let mut i: usize = 0;
        while i < self.entries.len()
            invariant
                self.wf(),
                i <= self.entries@.len(),
                forall|j: int| 0 <= j < i ==> self.entries@[j].0 != bucket,
            decreases self.entries@.len() - i,
        {
            if same_bucket(self.entries[i].0, bucket) {
                assert(self.model@.contains_key(self.entries@[i as int].0));
                return Some(self.entries[i].1);
            }
            i = i + 1;
        }
        None
    }

    /// Stores the estimate of `bucket`; a bucket that already has one keeps it.
    pub fn record(&mut self, bucket: Option<u32>, limit: u128)
        requires
            old(self).wf(),
        ensures
            final(self).wf(),
            final(self)@ == with_estimate(old(self)@, bucket, limit),
    {
        if self.limit_for(bucket).is_some() {
            return;
        }
        assert forall|j: int| 0 <= j < self.entries@.len() implies self.entries@[j].0 != bucket by {
            assert(self.model@.contains_key(self.entries@[j].0));
        }
        self.entries.push((bucket, limit));
        self.model = Ghost(self.model@.insert(bucket, limit));
        assert forall|i: int| 0 <= i < self.entries@.len() implies {
            &&& #[trigger] self.model@.contains_key(self.entries@[i].0)
            &&& self.model@[self.entries@[i].0] == self.entries@[i].1
        } by {
            if i < old(self).entries@.len() {
                assert(old(self).entries@[i] == self.entries@[i]);
                assert(old(self).model@.contains_key(old(self).entries@[i].0));
            }
        }
        assert forall|k: Option<u32>| #[trigger] self.model@.contains_key(k) implies exists|i: int|
            0 <= i < self.entries@.len() && self.entries@[i].0 == k by {
            if k == bucket {
                assert(self.entries@[self.entries@.len() - 1].0 == k);
            } else {
                let i = choose|i: int| 0 <= i < old(self).entries@.len() && old(self).entries@[i].0 == k;
                assert(self.entries@[i].0 == k);
            }
        }
    }
}

} // verus!
