use vstd::prelude::*;

verus! {

/// Length in bytes of an account address.
pub const ADDRESS_LEN: usize = 20;

/// An account address: twenty bytes, compared byte by byte.
#[derive(Clone, Copy, Debug)]
pub struct Address {
    pub bytes: [u8; 20],
}

impl Address {
    pub open spec fn view(&self) -> Seq<u8> {
        self.bytes@
    }

    /// Whether two addresses hold the same bytes.
    pub fn same_as(&self, other: &Address) -> (r: bool)
        ensures
            r == (self@ == other@),
    {
        let mut i: usize = 0;
        while i < ADDRESS_LEN
            invariant
                i <= ADDRESS_LEN,
                self@.len() == ADDRESS_LEN,
                other@.len() == ADDRESS_LEN,
                forall|j: int| 0 <= j < i ==> self@[j] == other@[j],
            decreases ADDRESS_LEN - i,
        {
            if self.bytes[i] != other.bytes[i] {
                return false;
            }
            i = i + 1;
        }
        assert(self@ =~= other@);
        true
    }
}

} // verus!

verus! {

/// A raw transaction request, as the generation layer produced it.
#[derive(Debug)]
pub struct TxRequest {
    /// The sender; every request must name one.
    pub from: Option<Address>,
    /// The recipient; `None` for a contract creation.
    pub to: Option<Address>,
    /// Call data; `None` or empty for a plain value transfer.
    pub input: Option<Vec<u8>>,
}

/// The sender of `t` as bytes (empty where it names none).
pub open spec fn sender_of(t: TxRequest) -> Seq<u8> {
    match t.from {
        Some(a) => a@,
        None => Seq::empty(),
    }
}

/// The call data of `t` as bytes.
pub open spec fn input_of(t: TxRequest) -> Option<Seq<u8>> {
    match t.input {
        Some(d) => Some(d@),
        None => None,
    }
}

/// The senders of `txs`, in order.
pub open spec fn senders_of(txs: Seq<TxRequest>) -> Seq<Seq<u8>> {
    txs.map_values(|t: TxRequest| sender_of(t))
}

/// One unit of generated work.
#[derive(Debug)]
pub enum ExecutionIntent {
    /// One transaction, with its optional "kind" tag.
    Single { tx: TxRequest, kind: Option<String> },
    /// Transactions meant for inclusion together, in order, in one block (at least
    /// one), with the bundle's optional "kind" tag.
    Bundle { txs: Vec<TxRequest>, kind: Option<String> },
}

/// What resolving a request fixed: the signer to use and the fields stamped on it.
#[derive(Clone, Copy, Debug)]
pub struct PreparedTx {
    pub signer: Address,
    pub nonce: u64,
    pub gas_price: u128,
    pub gas_limit: u128,
    pub chain_id: u64,
}

/// A batch position ready to be signed and sent.
#[derive(Debug)]
pub enum Payload {
    /// One transaction, sent on its own.
    Single(PreparedTx),
    /// The members of a bundle, submitted in one call.
    Bundle(Vec<PreparedTx>),
}

} // verus!
