use vstd::prelude::*;

use crate::types::Address;

verus! {

/// Why a nonce could not be issued.
#[derive(Clone, Copy, Debug, PartialEq, Eq, Structural)]
pub enum NonceError {
    /// The sender's transaction count was never registered for this run.
    Unregistered,
    /// The sender's next nonce is the largest `u64`; advancing it would overflow.
    Exhausted,
}

/// Next-nonce tracker: one entry per sender, seeded once from the chain and then
/// advanced by one for every nonce handed out, without waiting for confirmation.
pub struct NonceTable {
    entries: Vec<(Address, u64)>,
    model: Ghost<Map<Seq<u8>, nat>>,
}

/// The table after issuing one nonce to each sender of `senders`, in order,
/// starting from `m`.
pub open spec fn issued_after(m: Map<Seq<u8>, nat>, senders: Seq<Seq<u8>>) -> Map<Seq<u8>, nat>
    decreases senders.len(),
{
    if senders.len() == 0 {
        m
    } else {
        let p = issued_after(m, senders.drop_last());
        p.insert(senders.last(), p[senders.last()] + 1)
    }
}

/// The nonce handed to the `k`-th issuance of `senders`, starting from `m`.
pub open spec fn issued_nonce(m: Map<Seq<u8>, nat>, senders: Seq<Seq<u8>>, k: int) -> nat {
    issued_after(m, senders.take(k))[senders[k]]
}

pub(crate) proof fn lemma_issued_step(m: Map<Seq<u8>, nat>, senders: Seq<Seq<u8>>, k: int, a: Seq<u8>)
    requires
        0 <= k < senders.len(),
    ensures
        issued_after(m, senders.take(k + 1))[a] == if a == senders[k] {
            issued_after(m, senders.take(k))[a] + 1
        } else {
            issued_after(m, senders.take(k))[a]
        },
{
    assert(senders.take(k + 1).drop_last() =~= senders.take(k));
}

pub(crate) proof fn lemma_issued_monotone(m: Map<Seq<u8>, nat>, senders: Seq<Seq<u8>>, a: Seq<u8>, k1: int, k2: int)
    requires
        0 <= k1 <= k2 <= senders.len(),
    ensures
        issued_after(m, senders.take(k1))[a] <= issued_after(m, senders.take(k2))[a],
    decreases k2 - k1,
{
    if k1 < k2 {
        lemma_issued_monotone(m, senders, a, k1, k2 - 1);
        lemma_issued_step(m, senders, k2 - 1, a);
    }
}

/// Within one run the table never hands the same nonce to a sender twice: a later
/// issuance to the same sender always gets a strictly larger nonce.
pub proof fn lemma_nonces_never_repeat(m: Map<Seq<u8>, nat>, senders: Seq<Seq<u8>>, i: int, j: int)
    requires
        0 <= i < j < senders.len(),
        senders[i] == senders[j],
    ensures
        issued_nonce(m, senders, i) < issued_nonce(m, senders, j),
{
    lemma_issued_step(m, senders, i, senders[i]);
    lemma_issued_monotone(m, senders, senders[i], i + 1, j);
}

impl NonceTable {
    /// The tracked next nonce of each registered sender.
    pub closed spec fn view(&self) -> Map<Seq<u8>, nat> {
        self.model@
    }

    pub closed spec fn wf(&self) -> bool {
        &&& forall|i: int, j: int|
            0 <= i < j < self.entries@.len() ==> self.entries@[i].0@ != self.entries@[j].0@
        &&& forall|i: int|
            0 <= i < self.entries@.len() ==> {
                &&& #[trigger] self.model@.contains_key(self.entries@[i].0@)
                &&& self.model@[self.entries@[i].0@] == self.entries@[i].1 as nat
            }
        &&& forall|k: Seq<u8>|
            #[trigger] self.model@.contains_key(k) ==> exists|i: int|
                0 <= i < self.entries@.len() && self.entries@[i].0@ == k
    }

    /// A table with no sender registered.
    pub fn new() -> (r: NonceTable)
        ensures
            r.wf(),
            r@ == Map::<Seq<u8>, nat>::empty(),
    {
        NonceTable { entries: Vec::new(), model: Ghost(Map::empty()) }
    }

    fn find(&self, addr: &Address) -> (r: Option<usize>)
        requires
            self.wf(),
        ensures
            match r {
                Some(i) => i < self.entries@.len() && self.entries@[i as int].0@ == addr@,
                None => !self@.contains_key(addr@),
            },
    {
        let mut i: usize = 0;
        while i < self.entries.len()
            invariant
                self.wf(),
                i <= self.entries@.len(),
                forall|j: int| 0 <= j < i ==> self.entries@[j].0@ != addr@,
            decreases self.entries@.len() - i,
        {
            if self.entries[i].0.same_as(addr) {
                return Some(i);
            }
            i = i + 1;
        }
        None
    }

    /// Whether `addr` has a registered nonce.
    pub fn is_registered(&self, addr: &Address) -> (r: bool)
        requires
            self.wf(),
        ensures
            r == self@.contains_key(addr@),
    {
        match self.find(addr) {
            Some(_) => true,
            None => false,
        }
    }

    /// The next nonce of `addr`, if it is registered; nothing changes.
    pub fn peek(&self, addr: &Address) -> (r: Option<u64>)
        requires
            self.wf(),
        ensures
            match r {
                Some(n) => self@.contains_key(addr@) && self@[addr@] == n as nat,
                None => !self@.contains_key(addr@),
            },
    {
        match self.find(addr) {
            Some(i) => {
                assert(self.model@.contains_key(self.entries@[i as int].0@));
                Some(self.entries[i].1)
            },
            None => None,
        }
    }

    /// Seeds the next nonce of `addr` with its on-chain transaction count.
    pub fn register(&mut self, addr: Address, count: u64)
        requires
            old(self).wf(),
        ensures
            final(self).wf(),
            final(self)@ == old(self)@.insert(addr@, count as nat),
    {
        match self.find(&addr) {
            Some(i) => {
                self.entries.set(i, (addr, count));
            },
            None => {
                assert forall|j: int| 0 <= j < self.entries@.len() implies self.entries@[j].0@
                    != addr@ by {
                    assert(self.model@.contains_key(self.entries@[j].0@));
                }
                self.entries.push((addr, count));
            },
        }
        self.model = Ghost(self.model@.insert(addr@, count as nat));
        assert forall|i: int| 0 <= i < self.entries@.len() implies {
            &&& #[trigger] self.model@.contains_key(self.entries@[i].0@)
            &&& self.model@[self.entries@[i].0@] == self.entries@[i].1 as nat
        } by {
            if i < old(self).entries@.len() && self.entries@[i].0@ != addr@ {
                assert(old(self).entries@[i] == self.entries@[i]);
                assert(old(self).model@.contains_key(old(self).entries@[i].0@));
            }
        }
        assert(forall|k: Seq<u8>|
            #[trigger] self.model@.contains_key(k) ==> exists|i: int|
                0 <= i < self.entries@.len() && self.entries@[i].0@ == k) by {
            assert forall|k: Seq<u8>| #[trigger] self.model@.contains_key(k) implies exists|i: int|
                0 <= i < self.entries@.len() && self.entries@[i].0@ == k by {
                if k == addr@ {
                    if self.entries@.len() > old(self).entries@.len() {
                        assert(self.entries@[self.entries@.len() - 1].0@ == k);
                    } else {
                        let i = choose|i: int| 0 <= i < old(self).entries@.len() && old(self).entries@[i].0@ == addr@;
                        assert(self.entries@[i].0@ == k);
                    }
                } else {
                    let i = choose|i: int| 0 <= i < old(self).entries@.len() && old(self).entries@[i].0@ == k;
                    assert(self.entries@[i].0@ == k);
                }
            }
        }
    }

    /// Hands out the next nonce of `addr` and advances it by one.
    pub fn next(&mut self, addr: &Address) -> (r: Result<u64, NonceError>)
        requires
            old(self).wf(),
        ensures
            final(self).wf(),
            !old(self)@.contains_key(addr@) ==> r == Err::<u64, NonceError>(NonceError::Unregistered)
                && final(self)@ == old(self)@,
            old(self)@.contains_key(addr@) && old(self)@[addr@] >= u64::MAX as nat ==> r == Err::<
                u64,
                NonceError,
            >(NonceError::Exhausted) && final(self)@ == old(self)@,
            old(self)@.contains_key(addr@) && old(self)@[addr@] < u64::MAX as nat ==> {
                &&& r == Ok::<u64, NonceError>(old(self)@[addr@] as u64)
                &&& final(self)@ == old(self)@.insert(addr@, old(self)@[addr@] + 1)
            },
    {
        match self.find(addr) {
            None => Err(NonceError::Unregistered),
            Some(i) => {
                let (a, n) = self.entries[i];
                assert(self.model@.contains_key(self.entries@[i as int].0@));
                if n == u64::MAX {
                    return Err(NonceError::Exhausted);
                }
                self.entries.set(i, (a, n + 1));
                self.model = Ghost(self.model@.insert(addr@, (n + 1) as nat));
                assert(forall|k: Seq<u8>|
                    #[trigger] self.model@.contains_key(k) ==> exists|j: int|
                        0 <= j < self.entries@.len() && self.entries@[j].0@ == k) by {
                    assert forall|k: Seq<u8>| #[trigger] self.model@.contains_key(k) implies exists|j: int|
                        0 <= j < self.entries@.len() && self.entries@[j].0@ == k by {
                        if k == addr@ {
                            assert(self.entries@[i as int].0@ == k);
                        } else {
                            let j = choose|j: int| 0 <= j < old(self).entries@.len() && old(self).entries@[j].0@ == k;
                            assert(self.entries@[j].0@ == k);
                        }
                    }
                }
                Ok(n)
            },
        }
    }
}

} // verus!
