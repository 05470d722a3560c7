use vstd::prelude::*;

use crate::gas::{
    bucket_of, escalated, escalated_gas_price, selector_bucket, with_estimate, GasLimitCache,
};
use crate::nonce::{
    issued_after, issued_nonce, lemma_issued_monotone, lemma_issued_step, lemma_nonces_never_repeat, NonceError,
    NonceTable,
};
use crate::types::{
    input_of, sender_of, senders_of, Address, ExecutionIntent, Payload, PreparedTx, TxRequest,
};

verus! {

/// Why one request or intent could not be made ready to send.
#[derive(Clone, Copy, Debug, PartialEq, Eq, Structural)]
pub enum PrepareError {
    /// The request names no sender.
    MissingFrom,
    /// The sender's nonce was never registered.
    UnregisteredSender,
    /// The call data is one to three bytes long.
    MalformedCallData,
    /// No signer is held for the sender.
    MissingSigner,
    /// No gas limit is known for the call's bucket (its estimate failed or is pending).
    GasLimitUnknown { bucket: Option<u32> },
    /// The sender's next nonce cannot be advanced without overflow.
    NonceExhausted,
    /// The escalated gas price exceeds `u128`.
    GasPriceOverflow,
    /// A bundle with no member.
    EmptyBundle,
}

/// Whether `e` ends the whole run, rather than the one dispatch task.
pub open spec fn fatal(e: PrepareError) -> bool {
    e is MissingFrom || e is UnregisteredSender || e is MalformedCallData || e is MissingSigner
}

/// Why request `t` cannot be prepared against the nonces `nonces`, the cached gas
/// limits `gas` and the senders `wallet` that have a signer; `None` if it can.
#[verifier::opaque]
pub open spec fn prepare_error(
    nonces: Map<Seq<u8>, nat>,
    gas: Map<Option<u32>, u128>,
    wallet: Seq<Seq<u8>>,
    t: TxRequest,
) -> Option<PrepareError> {
    match t.from {
        None => Some(PrepareError::MissingFrom),
        Some(a) => {
            if !nonces.contains_key(a@) {
                Some(PrepareError::UnregisteredSender)
            } else {
                match bucket_of(input_of(t)) {
                    Err(_) => Some(PrepareError::MalformedCallData),
                    Ok(b) => if !wallet.contains(a@) {
                        Some(PrepareError::MissingSigner)
                    } else if !gas.contains_key(b) {
                        Some(PrepareError::GasLimitUnknown { bucket: b })
                    } else if nonces[a@] >= u64::MAX {
                        Some(PrepareError::NonceExhausted)
                    } else {
                        None
                    },
                }
            }
        },
    }
}

/// Whether request `t` is clear of every condition that ends a run: it names a
/// sender that is registered in `nonces` and has a signer in `wallet`, and its call
/// data is well formed.
pub open spec fn fatal_free(nonces: Map<Seq<u8>, nat>, wallet: Seq<Seq<u8>>, t: TxRequest) -> bool {
    match t.from {
        None => false,
        Some(a) => nonces.contains_key(a@) && bucket_of(input_of(t)) is Ok && wallet.contains(a@),
    }
}

proof fn lemma_fatal_free_not_fatal(
    nonces: Map<Seq<u8>, nat>,
    gas: Map<Option<u32>, u128>,
    wallet: Seq<Seq<u8>>,
    t: TxRequest,
)
    requires
        fatal_free(nonces, wallet, t),
    ensures
        match prepare_error(nonces, gas, wallet, t) {
            Some(e) => !fatal(e),
            None => true,
        },
{
    reveal(prepare_error);
}

proof fn lemma_prepared_sender_registered(
    nonces: Map<Seq<u8>, nat>,
    gas: Map<Option<u32>, u128>,
    wallet: Seq<Seq<u8>>,
    t: TxRequest,
)
    requires
        prepare_error(nonces, gas, wallet, t) is None,
    ensures
        t.from is Some,
        nonces.contains_key(sender_of(t)),
{
    reveal(prepare_error);
}

/// The gas-limit bucket of request `t` (meaningful where its call data is well formed).
pub open spec fn bucket_of_tx(t: TxRequest) -> Option<u32> {
    match bucket_of(input_of(t)) {
        Ok(b) => b,
        Err(_) => None,
    }
}

/// What resolving request `t` fixes when it succeeds.
pub open spec fn prepared_as(
    p: PreparedTx,
    nonces: Map<Seq<u8>, nat>,
    gas: Map<Option<u32>, u128>,
    t: TxRequest,
    nonce: nat,
    gas_price: u128,
    chain_id: u64,
) -> bool {
    &&& p.signer@ == sender_of(t)
    &&& p.nonce == nonce
    &&& p.gas_price == gas_price
    &&& p.gas_limit == gas[bucket_of_tx(t)]
    &&& p.chain_id == chain_id
}

/// Whether the first `k` members of a bundle prepare without error, one after the
/// other, from the nonces `nonces`.
pub open spec fn bundle_prefix_ok(
    nonces: Map<Seq<u8>, nat>,
    gas: Map<Option<u32>, u128>,
    wallet: Seq<Seq<u8>>,
    txs: Seq<TxRequest>,
    k: int,
) -> bool {
    forall|j: int|
        0 <= j < k ==> prepare_error(issued_after(nonces, senders_of(txs).take(j)), gas, wallet, #[trigger] txs[j])
            is None
}

/// A gas estimate that a batch still needs: for `bucket`, using member `member` of
/// intent `intent` of the batch as the transaction template.
#[derive(Clone, Copy, Debug)]
pub struct EstimateRequest {
    pub intent: usize,
    pub member: usize,
    pub bucket: Option<u32>,
}

/// The transactions of an intent, in order.
pub open spec fn intent_txs(i: ExecutionIntent) -> Seq<TxRequest> {
    match i {
        ExecutionIntent::Single { tx, kind: _ } => seq![tx],
        ExecutionIntent::Bundle { txs, kind: _ } => txs@,
    }
}

/// Whether some request of `out` is for bucket `b`.
pub open spec fn listed(out: Seq<EstimateRequest>, b: Option<u32>) -> bool {
    exists|j: int| 0 <= j < out.len() && (#[trigger] out[j]).bucket == b
}

/// Whether the transaction at (`i`, `m`) of `batch` needs an estimate that `out` holds.
pub open spec fn covered(
    batch: Seq<ExecutionIntent>,
    gas: Map<Option<u32>, u128>,
    failed: Seq<Option<u32>>,
    out: Seq<EstimateRequest>,
    i: int,
    m: int,
) -> bool {
    match bucket_of(input_of(intent_txs(batch[i])[m])) {
        Ok(b) => !gas.contains_key(b) && !failed.contains(b) ==> listed(out, b),
        Err(_) => true,
    }
}

/// The number of transactions in `intent`.
pub fn member_count(intent: &ExecutionIntent) -> (r: usize)
    ensures
        r == intent_txs(*intent).len(),
{
    match intent {
        ExecutionIntent::Single { tx: _, kind: _ } => 1,
        ExecutionIntent::Bundle { txs, kind: _ } => txs.len(),
    }
}

/// Transaction `m` of `intent`.
pub fn member_at(intent: &ExecutionIntent, m: usize) -> (r: &TxRequest)
    requires
        m < intent_txs(*intent).len(),
    ensures
        *r == intent_txs(*intent)[m as int],
{
    match intent {
        ExecutionIntent::Single { tx, kind: _ } => tx,
        ExecutionIntent::Bundle { txs, kind: _ } => &txs[m],
    }
}

fn is_listed(out: &Vec<EstimateRequest>, b: Option<u32>) -> (r: bool)
    ensures
        r == listed(out@, b),
{
    let mut j: usize = 0;
    while j < out.len()
        invariant
            j <= out@.len(),
            forall|k: int| 0 <= k < j ==> out@[k].bucket != b,
        decreases out@.len() - j,
    {
        let same = match (out[j].bucket, b) {
            (None, None) => true,
            (Some(x), Some(y)) => x == y,
            _ => false,
        };
        if same {
            assert(out@[j as int].bucket == b);
            return true;
        }
        j = j + 1;
    }
    false
}

/// What resolving `intent` at batch position `pos` of a block with base gas price
/// `base_price` returns (`r`) and leaves as nonces (`n1`), from the nonces `n0`, the
/// cached gas limits `gas` and the senders `wallet` that have a signer.
pub open spec fn intent_step(
    n0: Map<Seq<u8>, nat>,
    gas: Map<Option<u32>, u128>,
    wallet: Seq<Seq<u8>>,
    intent: ExecutionIntent,
    pos: nat,
    base_price: u128,
    chain_id: u64,
    r: Result<Payload, PrepareError>,
    n1: Map<Seq<u8>, nat>,
) -> bool {
    &&& (escalated(base_price, pos) > u128::MAX ==> r == Err::<Payload, PrepareError>(
                PrepareError::GasPriceOverflow,
            ) && n1 == n0)
            &&& (escalated(base_price, pos) <= u128::MAX ==> match intent {
                ExecutionIntent::Single { tx, kind: _ } => {
                    &&& prepare_error(n0, gas, wallet, tx)
                        == match r {
                        Ok(_) => None,
                        Err(e) => Some(e),
                    }
                    &&& r is Err ==> n1 == n0
                    &&& r is Ok ==> (r matches Ok(Payload::Single(p)) && prepared_as(
                        p,
                        n0,
                        gas,
                        tx,
                        n0[sender_of(tx)],
                        escalated(base_price, pos) as u128,
                        chain_id,
                    ) && n1 == n0.insert(
                        sender_of(tx),
                        n0[sender_of(tx)] + 1,
                    ))
                },
                ExecutionIntent::Bundle { txs, kind: _ } => if txs@.len() == 0 {
                    r == Err::<Payload, PrepareError>(PrepareError::EmptyBundle) && n1 == n0
                } else {
                    &&& r is Ok <==> bundle_prefix_ok(
                        n0,
                        gas,
                        wallet,
                        txs@,
                        txs@.len() as int,
                    )
                    &&& r is Ok ==> (r matches Ok(Payload::Bundle(ps)) && ps@.len() == txs@.len()
                        && n1 == issued_after(n0, senders_of(txs@))
                        && forall|k: int|
                        0 <= k < txs@.len() ==> prepared_as(
                            #[trigger] ps@[k],
                            n0,
                            gas,
                            txs@[k],
                            issued_nonce(n0, senders_of(txs@), k),
                            escalated(base_price, pos) as u128,
                            chain_id,
                        ))
                    &&& r matches Err(e) ==> exists|k: int|
                        0 <= k < txs@.len() && bundle_prefix_ok(
                            n0,
                            gas,
                            wallet,
                            txs@,
                            k,
                        ) && prepare_error(
                            issued_after(n0, senders_of(txs@).take(k)),
                            gas,
                            wallet,
                            #[trigger] txs@[k],
                        ) == Some(e) && n1 == issued_after(
                            n0,
                            senders_of(txs@).take(k),
                        )
                },
            })
}

/// Whether `outs` are the outcomes of the first `outs.len()` positions of `batch`,
/// resolved one after the other: position `i` starts from the nonces `ns[i]` and
/// leaves `ns[i + 1]`.
pub open spec fn batch_trace(
    ns: Seq<Map<Seq<u8>, nat>>,
    gas: Map<Option<u32>, u128>,
    wallet: Seq<Seq<u8>>,
    batch: Seq<ExecutionIntent>,
    base_price: u128,
    chain_id: u64,
    outs: Seq<Result<Payload, PrepareError>>,
) -> bool {
    &&& ns.len() == outs.len() + 1
    &&& outs.len() <= batch.len()
    &&& forall|i: int|
        0 <= i < outs.len() ==> intent_step(
            ns[i],
            gas,
            wallet,
            batch[i],
            i as nat,
            base_price,
            chain_id,
            #[trigger] outs[i],
            ns[i + 1],
        )
}

/// Whether every transaction of payload `p` pays `price`, and `p` has the shape of
/// `intent`: a single transaction for a single intent, one member per bundle member.
pub open spec fn payload_for(p: Payload, intent: ExecutionIntent, price: u128) -> bool {
    match (p, intent) {
        (Payload::Single(t), ExecutionIntent::Single { tx: _, kind: _ }) => t.gas_price == price,
        (Payload::Bundle(ps), ExecutionIntent::Bundle { txs, kind: _ }) => ps@.len() == txs@.len() && forall|k: int|
            0 <= k < ps@.len() ==> (#[trigger] ps@[k]).gas_price == price,
        _ => false,
    }
}

/// The (sender, nonce) pairs that payload `p` carries, in order.
pub open spec fn payload_nonces(p: Payload) -> Seq<(Seq<u8>, nat)> {
    match p {
        Payload::Single(t) => seq![(t.signer@, t.nonce as nat)],
        Payload::Bundle(ps) => ps@.map_values(|t: PreparedTx| (t.signer@, t.nonce as nat)),
    }
}

/// The (sender, nonce) pairs of every prepared position of `outs`, in order.
pub open spec fn batch_nonces(outs: Seq<Result<Payload, PrepareError>>) -> Seq<(Seq<u8>, nat)>
    decreases outs.len(),
{
    if outs.len() == 0 {
        Seq::empty()
    } else {
        batch_nonces(outs.drop_last()) + outcome_nonces(outs.last())
    }
}

/// The (sender, nonce) pairs of one position's outcome.
pub open spec fn outcome_nonces(r: Result<Payload, PrepareError>) -> Seq<(Seq<u8>, nat)> {
    match r {
        Ok(p) => payload_nonces(p),
        Err(_) => Seq::empty(),
    }
}

/// Whether no element of `s` occurs twice.
pub open spec fn all_distinct(s: Seq<(Seq<u8>, nat)>) -> bool {
    forall|i: int, j: int| 0 <= i < j < s.len() ==> s[i] != s[j]
}

/// Whether every pair of `s` carries a nonce from `lo` up to, but not including, `hi`.
pub open spec fn nonces_between(s: Seq<(Seq<u8>, nat)>, lo: Map<Seq<u8>, nat>, hi: Map<Seq<u8>, nat>) -> bool {
    forall|i: int| 0 <= i < s.len() ==> lo[(#[trigger] s[i]).0] <= s[i].1 < hi[s[i].0]
}

proof fn lemma_issued_bounds(m: Map<Seq<u8>, nat>, s: Seq<Seq<u8>>, k: int)
    requires
        0 <= k <= s.len(),
    ensures
        forall|a: Seq<u8>| #[trigger] issued_after(m, s.take(k))[a] >= m[a],
        k < s.len() ==> m[s[k]] <= issued_nonce(m, s, k) < issued_after(m, s)[s[k]],
{
    assert(s.take(0) =~= Seq::<Seq<u8>>::empty());
    assert(s.take(s.len() as int) =~= s);
    assert forall|a: Seq<u8>| #[trigger] issued_after(m, s.take(k))[a] >= m[a] by {
        lemma_issued_monotone(m, s, a, 0, k);
    }
    if k < s.len() {
        lemma_issued_monotone(m, s, s[k], 0, k);
        lemma_issued_step(m, s, k, s[k]);
        lemma_issued_monotone(m, s, s[k], k + 1, s.len() as int);
    }
}

proof fn lemma_issued_dom(m: Map<Seq<u8>, nat>, s: Seq<Seq<u8>>)
    requires
        forall|k: int| 0 <= k < s.len() ==> m.contains_key(#[trigger] s[k]),
    ensures
        issued_after(m, s).dom() == m.dom(),
    decreases s.len(),
{
    if s.len() > 0 {
        let d = s.drop_last();
        assert forall|k: int| 0 <= k < d.len() implies m.contains_key(#[trigger] d[k]) by {
            assert(d[k] == s[k]);
        }
        lemma_issued_dom(m, d);
        assert(m.contains_key(s[s.len() - 1]));
        assert(issued_after(m, s).dom() =~= m.dom());
    }
}

proof fn lemma_extend_pairs(
    prev: Seq<(Seq<u8>, nat)>,
    new: Seq<(Seq<u8>, nat)>,
    lo: Map<Seq<u8>, nat>,
    cur: Map<Seq<u8>, nat>,
    next: Map<Seq<u8>, nat>,
)
    requires
        all_distinct(prev),
        nonces_between(prev, lo, cur),
        all_distinct(new),
        nonces_between(new, cur, next),
        forall|a: Seq<u8>| #[trigger] next[a] >= cur[a],
        forall|a: Seq<u8>| #[trigger] cur[a] >= lo[a],
    ensures
        all_distinct(prev + new),
        nonces_between(prev + new, lo, next),
{
    let all = prev + new;
    assert forall|i: int, j: int| 0 <= i < j < all.len() implies all[i] != all[j] by {
        if i < prev.len() && j >= prev.len() {
            assert(all[i] == prev[i]);
            assert(all[j] == new[j - prev.len()]);
            assert(cur[new[j - prev.len()].0] <= new[j - prev.len()].1);
            assert(prev[i].1 < cur[prev[i].0]);
        } else if j < prev.len() {
            assert(all[i] == prev[i] && all[j] == prev[j]);
        } else {
            assert(all[i] == new[i - prev.len()] && all[j] == new[j - prev.len()]);
        }
    }
    assert forall|i: int| 0 <= i < all.len() implies lo[(#[trigger] all[i]).0] <= all[i].1 < next[all[i].0] by {
        if i < prev.len() {
            assert(all[i] == prev[i]);
            assert(lo[prev[i].0] <= prev[i].1 < cur[prev[i].0]);
            assert(next[prev[i].0] >= cur[prev[i].0]);
        } else {
            assert(all[i] == new[i - prev.len()]);
            assert(cur[new[i - prev.len()].0] <= new[i - prev.len()].1 < next[new[i - prev.len()].0]);
            assert(cur[new[i - prev.len()].0] >= lo[new[i - prev.len()].0]);
        }
    }
}

/// The engine state that the control loop owns: next nonces, gas-limit estimates,
/// and the senders whose signer is at hand.
pub struct BlockwiseSpammer {
    nonces: NonceTable,
    gas_limits: GasLimitCache,
    wallet: Vec<Address>,
    failed_estimates: Vec<Option<u32>>,
}

impl PrepareError {
    /// Whether this error ends the whole run, rather than one dispatch task.
    pub fn is_fatal(&self) -> (r: bool)
        ensures
            r == fatal(*self),
    {
        match self {
            PrepareError::MissingFrom => true,
            PrepareError::UnregisteredSender => true,
            PrepareError::MalformedCallData => true,
            PrepareError::MissingSigner => true,
            _ => false,
        }
    }
}

impl BlockwiseSpammer {
    pub closed spec fn nonces_view(&self) -> Map<Seq<u8>, nat> {
        self.nonces@
    }

    pub closed spec fn gas_view(&self) -> Map<Option<u32>, u128> {
        self.gas_limits@
    }

    /// The buckets whose estimate failed in this run, in the order reported.
    pub closed spec fn failed_view(&self) -> Seq<Option<u32>> {
        self.failed_estimates@
    }

    /// The senders that have a signer.
    pub closed spec fn wallet_view(&self) -> Seq<Seq<u8>> {
        self.wallet@.map_values(|a: Address| a@)
    }

    pub closed spec fn wf(&self) -> bool {
        self.nonces.wf() && self.gas_limits.wf()
    }

    /// An engine for the signers `signers`, each with its on-chain transaction count
    /// (a sender listed twice keeps its last count); no gas limit is known yet.
    pub fn new(signers: &Vec<(Address, u64)>) -> (r: BlockwiseSpammer)
        ensures
            r.wf(),
            r.wallet_view() == signers@.map_values(|p: (Address, u64)| p.0@),
            forall|a: Seq<u8>|
                #![trigger r.nonces_view().contains_key(a)]
                r.nonces_view().contains_key(a) <==> r.wallet_view().contains(a),
            forall|i: int|
                0 <= i < signers@.len() && (forall|j: int|
                    i < j < signers@.len() ==> signers@[j].0@ != signers@[i].0@)
                    ==> #[trigger] r.nonces_view()[signers@[i].0@] == signers@[i].1 as nat,
            r.gas_view() == Map::<Option<u32>, u128>::empty(),
            r.failed_view() == Seq::<Option<u32>>::empty(),
    {
        let mut nonces = NonceTable::new();
        let mut wallet: Vec<Address> = Vec::new();
        let mut i: usize = 0;
        while i < signers.len()
            invariant
                nonces.wf(),
                i <= signers@.len(),
                wallet@.map_values(|a: Address| a@) == signers@.take(i as int).map_values(
                    |p: (Address, u64)| p.0@,
                ),
                forall|a: Seq<u8>|
                    #![trigger nonces@.contains_key(a)]
                    nonces@.contains_key(a) <==> wallet@.map_values(|a: Address| a@).contains(a),
                forall|k: int|
                    0 <= k < i && (forall|j: int| k < j < i ==> signers@[j].0@ != signers@[k].0@)
                        ==> #[trigger] nonces@[signers@[k].0@] == signers@[k].1 as nat,
            decreases signers@.len() - i,
        {
            let (a, n) = signers[i];
            let ghost prev = wallet@;
            nonces.register(a, n);
            wallet.push(a);
            proof {
                let wv = wallet@.map_values(|a: Address| a@);
                let pv = prev.map_values(|a: Address| a@);
                assert(signers@.take(i + 1) =~= signers@.take(i as int).push(signers@[i as int]));
                assert(wv =~= pv.push(a@));
                assert(wv =~= signers@.take(i + 1).map_values(|p: (Address, u64)| p.0@));
                assert forall|x: Seq<u8>| #![trigger nonces@.contains_key(x)]
                    nonces@.contains_key(x) <==> wv.contains(x) by {
                    let old_wv = wv.drop_last();
                    assert(old_wv =~= signers@.take(i as int).map_values(|p: (Address, u64)| p.0@));
                    if wv.contains(x) && x != a@ {
                        let j = choose|j: int| 0 <= j < wv.len() && wv[j] == x;
                        assert(old_wv[j] == x);
                    }
                    if old_wv.contains(x) {
                        let j = choose|j: int| 0 <= j < old_wv.len() && old_wv[j] == x;
                        assert(wv[j] == x);
                    }
                    if x == a@ {
                        assert(wv[wv.len() - 1] == x);
                    }
                }
            }
            i = i + 1;
        }
        proof {
            assert(signers@.take(signers@.len() as int) =~= signers@);
        }
        BlockwiseSpammer { nonces, gas_limits: GasLimitCache::new(), wallet, failed_estimates: Vec::new() }
    }

    fn has_signer(&self, addr: &Address) -> (r: bool)
        ensures
            r == self.wallet_view().contains(addr@),
    {
        let mut i: usize = 0;
        while i < self.wallet.len()
            invariant
                i <= self.wallet@.len(),
                forall|j: int| 0 <= j < i ==> self.wallet@[j]@ != addr@,
            decreases self.wallet@.len() - i,
        {
            if self.wallet[i].same_as(addr) {
                assert(self.wallet_view()[i as int] == addr@);
                return true;
            }
            i = i + 1;
        }
        assert forall|j: int| 0 <= j < self.wallet_view().len() implies self.wallet_view()[j] != addr@ by {
            assert(self.wallet_view()[j] == self.wallet@[j]@);
        }
        false
    }

    fn has_failed(&self, bucket: Option<u32>) -> (r: bool)
        ensures
            r == self.failed_view().contains(bucket),
    {
        let mut i: usize = 0;
        while i < self.failed_estimates.len()
            invariant
                i <= self.failed_view().len(),
                forall|j: int| 0 <= j < i ==> self.failed_view()[j] != bucket,
            decreases self.failed_view().len() - i,
        {
            let same = match (self.failed_estimates[i], bucket) {
                (None, None) => true,
                (Some(x), Some(y)) => x == y,
                _ => false,
            };
            if same {
                assert(self.failed_view()[i as int] == bucket);
                return true;
            }
            i = i + 1;
        }
        false
    }

    /// Records that the estimate of `bucket` failed: it is not asked for again in
    /// this run, and intents of that bucket cannot be prepared.
    pub fn record_failed_estimate(&mut self, bucket: Option<u32>)
        requires
            old(self).wf(),
        ensures
            final(self).wf(),
            final(self).nonces_view() == old(self).nonces_view(),
            final(self).gas_view() == old(self).gas_view(),
            final(self).wallet_view() == old(self).wallet_view(),
            final(self).failed_view() == old(self).failed_view().push(bucket),
    {
        self.failed_estimates.push(bucket);
    }

    /// The next nonce of `addr`, if it is registered.
    pub fn nonce_of(&self, addr: &Address) -> (r: Option<u64>)
        requires
            self.wf(),
        ensures
            match r {
                Some(n) => self.nonces_view().contains_key(addr@) && self.nonces_view()[addr@] == n as nat,
                None => !self.nonces_view().contains_key(addr@),
            },
    {
        self.nonces.peek(addr)
    }

    /// The gas limit known for `bucket`, if any.
    pub fn gas_limit_for(&self, bucket: Option<u32>) -> (r: Option<u128>)
        requires
            self.wf(),
        ensures
            match r {
                Some(g) => self.gas_view().contains_key(bucket) && self.gas_view()[bucket] == g,
                None => !self.gas_view().contains_key(bucket),
            },
    {
        self.gas_limits.limit_for(bucket)
    }

    /// Stores an estimate for `bucket`; a bucket that has one keeps it.
    pub fn record_gas_limit(&mut self, bucket: Option<u32>, limit: u128)
        requires
            old(self).wf(),
        ensures
            final(self).wf(),
            final(self).nonces_view() == old(self).nonces_view(),
            final(self).wallet_view() == old(self).wallet_view(),
            final(self).gas_view() == with_estimate(old(self).gas_view(), bucket, limit),
    {
        self.gas_limits.record(bucket, limit);
    }

    /// Resolves request `t`: its sender's nonce (which then advances by one), its gas
    /// limit from the bucket of its call data, and its signer, stamped with
    /// `gas_price` and `chain_id`. On an error nothing changes.
    pub fn prepare_tx_req(&mut self, t: &TxRequest, gas_price: u128, chain_id: u64) -> (r: Result<
        PreparedTx,
        PrepareError,
    >)
        requires
            old(self).wf(),
        ensures
            final(self).wf(),
            final(self).gas_view() == old(self).gas_view(),
            final(self).wallet_view() == old(self).wallet_view(),
            prepare_error(old(self).nonces_view(), old(self).gas_view(), old(self).wallet_view(), *t)
                == match r {
                Ok(_) => None,
                Err(e) => Some(e),
            },
            r is Err ==> final(self).nonces_view() == old(self).nonces_view(),
            r matches Ok(p) ==> {
                &&& prepared_as(
                    p,
                    old(self).nonces_view(),
                    old(self).gas_view(),
                    *t,
                    old(self).nonces_view()[sender_of(*t)],
                    gas_price,
                    chain_id,
                )
                &&& final(self).nonces_view() == old(self).nonces_view().insert(
                    sender_of(*t),
                    old(self).nonces_view()[sender_of(*t)] + 1,
                )
            },
    {
        proof {
            reveal(prepare_error);
        }
        let from = match &t.from {
            None => {
                return Err(PrepareError::MissingFrom);
            },
            Some(a) => *a,
        };
        if !self.nonces.is_registered(&from) {
            return Err(PrepareError::UnregisteredSender);
        }
        let bucket = match selector_bucket(&t.input) {
            Err(_) => {
                return Err(PrepareError::MalformedCallData);
            },
            Ok(b) => b,
        };
        if !self.has_signer(&from) {
            return Err(PrepareError::MissingSigner);
        }
        let gas_limit = match self.gas_limits.limit_for(bucket) {
            None => {
                return Err(PrepareError::GasLimitUnknown { bucket });
            },
            Some(g) => g,
        };
        let nonce = match self.nonces.next(&from) {
            Err(NonceError::Unregistered) => {
                return Err(PrepareError::UnregisteredSender);
            },
            Err(NonceError::Exhausted) => {
                return Err(PrepareError::NonceExhausted);
            },
            Ok(n) => n,
        };
        Ok(PreparedTx { signer: from, nonce, gas_price, gas_limit, chain_id })
    }

    /// Resolves the intent at batch position `pos` of a block whose base gas price is
    /// `base_price`: every transaction of it pays `base_price` plus one gwei per
    /// earlier position. A bundle's members are resolved in order, each taking the
    /// next nonce of its sender; a member that fails aborts the bundle, and the
    /// nonces handed to the members before it stay issued.
    pub fn prepare_intent(
        &mut self,
        intent: &ExecutionIntent,
        pos: usize,
        base_price: u128,
        chain_id: u64,
    ) -> (r: Result<Payload, PrepareError>)
        requires
            old(self).wf(),
        ensures
            final(self).wf(),
            final(self).gas_view() == old(self).gas_view(),
            final(self).wallet_view() == old(self).wallet_view(),
            intent_step(
                old(self).nonces_view(),
                old(self).gas_view(),
                old(self).wallet_view(),
                *intent,
                pos as nat,
                base_price,
                chain_id,
                r,
                final(self).nonces_view(),
            ),
    {
        let gas_price = match escalated_gas_price(base_price, pos) {
            None => {
                return Err(PrepareError::GasPriceOverflow);
            },
            Some(g) => g,
        };
        match intent {
            ExecutionIntent::Single { tx, kind: _ } => {
                let p = self.prepare_tx_req(tx, gas_price, chain_id)?;
                Ok(Payload::Single(p))
            },
            ExecutionIntent::Bundle { txs, kind: _ } => {
                if txs.len() == 0 {
                    return Err(PrepareError::EmptyBundle);
                }
                let ps = self.prepare_bundle(txs, gas_price, chain_id)?;
                Ok(Payload::Bundle(ps))
            },
        }
    }

    /// Resolves the members of a bundle in order, all at `gas_price`.
    #[verifier::rlimit(40)]
    fn prepare_bundle(&mut self, txs: &Vec<TxRequest>, gas_price: u128, chain_id: u64) -> (r: Result<
        Vec<PreparedTx>,
        PrepareError,
    >)
        requires
            old(self).wf(),
        ensures
            final(self).wf(),
            final(self).gas_view() == old(self).gas_view(),
            final(self).wallet_view() == old(self).wallet_view(),
            r is Ok <==> bundle_prefix_ok(
                old(self).nonces_view(),
                old(self).gas_view(),
                old(self).wallet_view(),
                txs@,
                txs@.len() as int,
            ),
            r matches Ok(ps) ==> ps@.len() == txs@.len() && final(self).nonces_view() == issued_after(
                old(self).nonces_view(),
                senders_of(txs@),
            ) && forall|k: int|
                0 <= k < txs@.len() ==> prepared_as(
                    #[trigger] ps@[k],
                    old(self).nonces_view(),
                    old(self).gas_view(),
                    txs@[k],
                    issued_nonce(old(self).nonces_view(), senders_of(txs@), k),
                    gas_price,
                    chain_id,
                ),
            r matches Err(e) ==> exists|k: int|
                0 <= k < txs@.len() && bundle_prefix_ok(
                    old(self).nonces_view(),
                    old(self).gas_view(),
                    old(self).wallet_view(),
                    txs@,
                    k,
                ) && prepare_error(
                    issued_after(old(self).nonces_view(), senders_of(txs@).take(k)),
                    old(self).gas_view(),
                    old(self).wallet_view(),
                    #[trigger] txs@[k],
                ) == Some(e) && final(self).nonces_view() == issued_after(
                    old(self).nonces_view(),
                    senders_of(txs@).take(k),
                ),
    {
        let ghost n0 = self.nonces_view();
        let ghost senders = senders_of(txs@);
        let mut out: Vec<PreparedTx> = Vec::new();
        let mut k: usize = 0;
        proof {
            assert(senders.take(0) =~= Seq::<Seq<u8>>::empty());
        }
        while k < txs.len()
            invariant
                self.wf(),
                self.gas_view() == old(self).gas_view(),
                self.wallet_view() == old(self).wallet_view(),
                n0 == old(self).nonces_view(),
                senders == senders_of(txs@),
                k <= txs@.len(),
                out@.len() == k,
                bundle_prefix_ok(n0, self.gas_view(), self.wallet_view(), txs@, k as int),
                self.nonces_view() == issued_after(n0, senders.take(k as int)),
                forall|j: int|
                    0 <= j < k ==> prepared_as(
                        #[trigger] out@[j],
                        n0,
                        self.gas_view(),
                        txs@[j],
                        issued_nonce(n0, senders, j),
                        gas_price,
                        chain_id,
                    ),
            decreases txs@.len() - k,
        {
            let ghost before = self.nonces_view();
            let res = self.prepare_tx_req(&txs[k], gas_price, chain_id);
            match res {
                Err(e) => {
                    assert(txs@[k as int] == txs[k as int]);
                    return Err(e);
                },
                Ok(p) => {
                    proof {
                        let kk = k as int;
                        assert(txs@[kk] == txs[kk]);
                        assert(senders[kk] == sender_of(txs@[kk]));
                        assert(senders.take(kk + 1).drop_last() =~= senders.take(kk));
                        assert(senders.take(kk + 1).last() == senders[kk]);
                        assert(issued_nonce(n0, senders, kk) == before[senders[kk]]);
                        assert(self.nonces_view() == issued_after(n0, senders.take(kk + 1)));
                        assert(prepare_error(before, self.gas_view(), self.wallet_view(), txs@[kk]) is None);
                        assert forall|j: int| 0 <= j < kk + 1 implies prepare_error(
                            issued_after(n0, senders.take(j)),
                            self.gas_view(),
                            self.wallet_view(),
                            #[trigger] txs@[j],
                        ) is None by {
                            if j < kk {
                                assert(bundle_prefix_ok(n0, self.gas_view(), self.wallet_view(), txs@, kk));
                            }
                        }
                    }
                    out.push(p);
                    k = k + 1;
                },
            }
        }
        proof {
            assert(senders.take(txs@.len() as int) =~= senders);
        }
        Ok(out)
    }

    /// The gas estimates that `batch` needs before it can be prepared: one per bucket
    /// that has no cached limit and whose estimate has not failed, so that each bucket
    /// is estimated at most once in a run.
    pub fn pending_estimates(&self, batch: &Vec<ExecutionIntent>) -> (r: Vec<EstimateRequest>)
        requires
            self.wf(),
        ensures
            forall|j1: int, j2: int| 0 <= j1 < j2 < r@.len() ==> r@[j1].bucket != r@[j2].bucket,
            forall|j: int|
                0 <= j < r@.len() ==> {
                    &&& !self.gas_view().contains_key(#[trigger] r@[j].bucket)
                    &&& !self.failed_view().contains(r@[j].bucket)
                    &&& r@[j].intent < batch@.len()
                    &&& r@[j].member < intent_txs(batch@[r@[j].intent as int]).len()
                    &&& bucket_of(
                        input_of(intent_txs(batch@[r@[j].intent as int])[r@[j].member as int]),
                    ) == Ok::<Option<u32>, crate::gas::SelectorError>(r@[j].bucket)
                },
            forall|i: int, m: int|
                0 <= i < batch@.len() && 0 <= m < intent_txs(batch@[i]).len() ==> #[trigger] covered(
                    batch@,
                    self.gas_view(),
                    self.failed_view(),
                    r@,
                    i,
                    m,
                ),
    {
        let mut out: Vec<EstimateRequest> = Vec::new();
        let mut i: usize = 0;
        while i < batch.len()
            invariant
                self.wf(),
                i <= batch@.len(),
                forall|j1: int, j2: int| 0 <= j1 < j2 < out@.len() ==> out@[j1].bucket != out@[j2].bucket,
                forall|j: int|
                    0 <= j < out@.len() ==> {
                        &&& !self.gas_view().contains_key(#[trigger] out@[j].bucket)
                    &&& !self.failed_view().contains(out@[j].bucket)
                        &&& out@[j].intent < batch@.len()
                        &&& out@[j].member < intent_txs(batch@[out@[j].intent as int]).len()
                        &&& bucket_of(
                            input_of(intent_txs(batch@[out@[j].intent as int])[out@[j].member as int]),
                        ) == Ok::<Option<u32>, crate::gas::SelectorError>(out@[j].bucket)
                    },
                forall|i2: int, m: int|
                    0 <= i2 < i && 0 <= m < intent_txs(batch@[i2]).len() ==> #[trigger] covered(
                        batch@,
                        self.gas_view(),
                        self.failed_view(),
                        out@,
                        i2,
                        m,
                    ),
            decreases batch@.len() - i,
        {
            let n = member_count(&batch[i]);
            let mut m: usize = 0;
            while m < n
                invariant
                    self.wf(),
                    i < batch@.len(),
                    n == intent_txs(batch@[i as int]).len(),
                    m <= n,
                    forall|j1: int, j2: int| 0 <= j1 < j2 < out@.len() ==> out@[j1].bucket != out@[j2].bucket,
                    forall|j: int|
                        0 <= j < out@.len() ==> {
                            &&& !self.gas_view().contains_key(#[trigger] out@[j].bucket)
                    &&& !self.failed_view().contains(out@[j].bucket)
                            &&& out@[j].intent < batch@.len()
                            &&& out@[j].member < intent_txs(batch@[out@[j].intent as int]).len()
                            &&& bucket_of(
                                input_of(intent_txs(batch@[out@[j].intent as int])[out@[j].member as int]),
                            ) == Ok::<Option<u32>, crate::gas::SelectorError>(out@[j].bucket)
                        },
                    forall|i2: int, m2: int|
                        (0 <= i2 < i && 0 <= m2 < intent_txs(batch@[i2]).len()) || (i2 == i && 0 <= m2
                            < m) ==> #[trigger] covered(batch@, self.gas_view(), self.failed_view(), out@, i2, m2),
                decreases n - m,
            {
                let t = member_at(&batch[i], m);
                match selector_bucket(&t.input) {
                    Err(_) => {},
                    Ok(b) => {
                        if self.gas_limits.limit_for(b).is_none() && !self.has_failed(b) && !is_listed(&out, b) {
                            let ghost prev = out@;
                            out.push(EstimateRequest { intent: i, member: m, bucket: b });
                            proof {
                                assert forall|i2: int, m2: int|
                                    (0 <= i2 < i && 0 <= m2 < intent_txs(batch@[i2]).len()) || (i2 == i
                                        && 0 <= m2 < m + 1) implies #[trigger] covered(
                                    batch@,
                                    self.gas_view(),
                                    self.failed_view(),
                                    out@,
                                    i2,
                                    m2,
                                ) by {
                                    if i2 == i && m2 == m {
                                        assert(out@[out@.len() - 1].bucket == b);
                                    } else {
                                        assert(covered(batch@, self.gas_view(), self.failed_view(), prev, i2, m2));
                                        if let Ok(b2) = bucket_of(input_of(intent_txs(batch@[i2])[m2])) {
                                            if !self.gas_view().contains_key(b2) && !self.failed_view().contains(b2) {
                                                let j = choose|j: int| 0 <= j < prev.len() && (#[trigger] prev[j]).bucket == b2;
                                                assert(out@[j] == prev[j]);
                                            }
                                        }
                                    }
                                }
                            }
                        } else {
                            assert(covered(batch@, self.gas_view(), self.failed_view(), out@, i as int, m as int));
                        }
                    },
                }
                m = m + 1;
            }
            i = i + 1;
        }
        out
    }

    /// Resolves a block's batch, position by position, against the block's base gas
    /// price: each position's outcome is what `prepare_intent` gives for it from the
    /// nonces that the positions before it left (`batch_trace`). An error that ends
    /// the run (see `fatal`) stops at once and is returned; any other error aborts
    /// only its position, whose outcome records it.
    pub fn prepare_batch(&mut self, batch: &Vec<ExecutionIntent>, base_price: u128, chain_id: u64) -> (r:
        Result<Vec<Result<Payload, PrepareError>>, PrepareError>)
        requires
            old(self).wf(),
        ensures
            final(self).wf(),
            final(self).gas_view() == old(self).gas_view(),
            final(self).wallet_view() == old(self).wallet_view(),
            r matches Err(e) ==> fatal(e) && exists|ns: Seq<Map<Seq<u8>, nat>>, done: Seq<Result<Payload, PrepareError>>|
                #[trigger] batch_trace(ns, old(self).gas_view(), old(self).wallet_view(), batch@, base_price, chain_id, done)
                    && done.len() < batch@.len() && ns[0] == old(self).nonces_view()
                    && (forall|j: int| 0 <= j < done.len() ==> !(#[trigger] done[j] matches Err(e2) && fatal(e2)))
                    && intent_step(
                    ns.last(),
                    old(self).gas_view(),
                    old(self).wallet_view(),
                    batch@[done.len() as int],
                    done.len(),
                    base_price,
                    chain_id,
                    Err(e),
                    final(self).nonces_view(),
                ),
            r matches Ok(outs) ==> exists|ns: Seq<Map<Seq<u8>, nat>>|
                #[trigger] batch_trace(ns, old(self).gas_view(), old(self).wallet_view(), batch@, base_price, chain_id, outs@)
                    && ns[0] == old(self).nonces_view() && ns.last() == final(self).nonces_view(),
            (forall|i: int, m: int|
                0 <= i < batch@.len() && 0 <= m < intent_txs(batch@[i]).len() ==> fatal_free(
                    old(self).nonces_view(),
                    old(self).wallet_view(),
                    #[trigger] intent_txs(batch@[i])[m],
                )) ==> r is Ok,
            r matches Ok(outs) ==> {
                &&& outs@.len() == batch@.len()
                &&& all_distinct(batch_nonces(outs@))
                &&& nonces_between(batch_nonces(outs@), old(self).nonces_view(), final(self).nonces_view())
                &&& forall|i: int|
                    0 <= i < outs@.len() ==> match #[trigger] outs@[i] {
                        Ok(p) => payload_for(p, batch@[i], escalated(base_price, i as nat) as u128),
                        Err(e) => !fatal(e),
                    }
            },
    {
        let ghost ff = forall|i: int, m: int|
            0 <= i < batch@.len() && 0 <= m < intent_txs(batch@[i]).len() ==> fatal_free(
                old(self).nonces_view(),
                old(self).wallet_view(),
                #[trigger] intent_txs(batch@[i])[m],
            );
        let mut outs: Vec<Result<Payload, PrepareError>> = Vec::new();
        let mut i: usize = 0;
        let ghost mut ns = seq![self.nonces_view()];
        while i < batch.len()
            invariant
                batch_trace(ns, old(self).gas_view(), old(self).wallet_view(), batch@, base_price, chain_id, outs@),
                ns[0] == old(self).nonces_view(),
                ns.last() == self.nonces_view(),
                forall|j: int| 0 <= j < outs@.len() ==> !(#[trigger] outs@[j] matches Err(e2) && fatal(e2)),
                ff == forall|i: int, m: int|
                    0 <= i < batch@.len() && 0 <= m < intent_txs(batch@[i]).len() ==> fatal_free(
                        old(self).nonces_view(),
                        old(self).wallet_view(),
                        #[trigger] intent_txs(batch@[i])[m],
                    ),
                ff ==> self.nonces_view().dom() == old(self).nonces_view().dom(),
                self.wf(),
                self.gas_view() == old(self).gas_view(),
                self.wallet_view() == old(self).wallet_view(),
                i <= batch@.len(),
                outs@.len() == i,
                all_distinct(batch_nonces(outs@)),
                nonces_between(batch_nonces(outs@), old(self).nonces_view(), self.nonces_view()),
                forall|a: Seq<u8>| #[trigger] self.nonces_view()[a] >= old(self).nonces_view()[a],
                forall|j: int|
                    0 <= j < i ==> match #[trigger] outs@[j] {
                        Ok(p) => payload_for(p, batch@[j], escalated(base_price, j as nat) as u128),
                        Err(e) => !fatal(e),
                    },
            decreases batch@.len() - i,
        {
            let ghost cur = self.nonces_view();
            let ghost prev_outs = outs@;
            let res = self.prepare_intent(&batch[i], i, base_price, chain_id);
            proof {
                let next = self.nonces_view();
                let new = outcome_nonces(res);
                if escalated(base_price, i as nat) <= u128::MAX {
                    match batch@[i as int] {
                        ExecutionIntent::Single { tx, kind: _ } => {
                            if ff {
                                assert(intent_txs(batch@[i as int])[0] == tx);
                                lemma_fatal_free_not_fatal(cur, old(self).gas_view(), old(self).wallet_view(), tx);
                                if res is Ok {
                                    lemma_prepared_sender_registered(
                                        cur,
                                        old(self).gas_view(),
                                        old(self).wallet_view(),
                                        tx,
                                    );
                                    assert(next.dom() =~= cur.dom());
                                }
                            }
                            if res is Ok {
                                let p = res->Ok_0->Single_0;
                                assert(new[0] == (p.signer@, p.nonce as nat));
                                assert(nonces_between(new, cur, next));
                            }
                        },
                        ExecutionIntent::Bundle { txs, kind: _ } => {
                            let senders = senders_of(txs@);
                            if ff {
                                assert forall|k: int| 0 <= k < senders.len() implies cur.contains_key(
                                    #[trigger] senders[k],
                                ) by {
                                    assert(intent_txs(batch@[i as int])[k] == txs@[k]);
                                    assert(senders[k] == sender_of(txs@[k]));
                                }
                                assert forall|k: int| 0 <= k <= senders.len() implies issued_after(
                                    cur,
                                    #[trigger] senders.take(k),
                                ).dom() == cur.dom() by {
                                    assert forall|j: int| 0 <= j < senders.take(k).len() implies cur.contains_key(
                                        #[trigger] senders.take(k)[j],
                                    ) by {
                                        assert(senders.take(k)[j] == senders[j]);
                                    }
                                    lemma_issued_dom(cur, senders.take(k));
                                }
                                assert(senders.take(senders.len() as int) =~= senders);
                            }
                            if res is Ok {
                                    assert(senders.take(senders.len() as int) =~= senders);
                                    lemma_issued_bounds(cur, senders, senders.len() as int);
                                    assert forall|k: int| 0 <= k < new.len() implies cur[(#[trigger] new[k]).0]
                                        <= new[k].1 < next[new[k].0] by {
                                        lemma_issued_bounds(cur, senders, k);
                                        assert(senders[k] == sender_of(txs@[k]));
                                    }
                                    assert forall|j: int, k: int| 0 <= j < k < new.len() implies new[j]
                                        != new[k] by {
                                        assert(senders[k] == sender_of(txs@[k]));
                                        assert(senders[j] == sender_of(txs@[j]));
                                        if new[j].0 == new[k].0 {
                                            lemma_nonces_never_repeat(cur, senders, j, k);
                                        }
                                    }
                            } else if (res is Err && txs@.len() > 0) {
                                    let k = choose|k: int|
                                        0 <= k < txs@.len() && bundle_prefix_ok(
                                            cur,
                                            old(self).gas_view(),
                                            old(self).wallet_view(),
                                            txs@,
                                            k,
                                        ) && prepare_error(
                                            issued_after(cur, senders_of(txs@).take(k)),
                                            old(self).gas_view(),
                                            old(self).wallet_view(),
                                            #[trigger] txs@[k],
                                        ) == Some(res->Err_0) && next == issued_after(
                                            cur,
                                            senders_of(txs@).take(k),
                                        );
                                    lemma_issued_bounds(cur, senders, k);
                                    if ff {
                                        assert(intent_txs(batch@[i as int])[k] == txs@[k]);
                                        lemma_fatal_free_not_fatal(
                                            issued_after(cur, senders.take(k)),
                                            old(self).gas_view(),
                                            old(self).wallet_view(),
                                            txs@[k],
                                        );
                                    }
                            }
                        },
                    }
                }
                assert forall|a: Seq<u8>| #[trigger] next[a] >= cur[a] by {}
                lemma_extend_pairs(batch_nonces(prev_outs), new, old(self).nonces_view(), cur, next);
            }
            match res {
                Err(e) => {
                    if e.is_fatal() {
                        assert(batch_trace(ns, old(self).gas_view(), old(self).wallet_view(), batch@, base_price, chain_id, outs@));
                        return Err(e);
                    }
                    outs.push(Err(e));
                },
                Ok(p) => {
                    outs.push(Ok(p));
                },
            }
            proof {
                assert(outs@.drop_last() =~= prev_outs);
                let ns2 = ns.push(self.nonces_view());
                assert forall|j: int| 0 <= j < outs@.len() implies intent_step(
                    ns2[j],
                    old(self).gas_view(),
                    old(self).wallet_view(),
                    batch@[j],
                    j as nat,
                    base_price,
                    chain_id,
                    #[trigger] outs@[j],
                    ns2[j + 1],
                ) by {
                    if j < prev_outs.len() {
                        assert(outs@[j] == prev_outs[j]);
                        assert(intent_step(
                            ns[j],
                            old(self).gas_view(),
                            old(self).wallet_view(),
                            batch@[j],
                            j as nat,
                            base_price,
                            chain_id,
                            prev_outs[j],
                            ns[j + 1],
                        ));
                    }
                }
                ns = ns2;
            }
            i = i + 1;
        }
        Ok(outs)
    }
}

} // verus!
