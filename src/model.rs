//! Plain-value representation of blocks, transactions and outputs.
use vstd::prelude::*;

verus! {

/// Output index that marks the null outpoint (together with an all-zero id).
pub const NULL_VOUT: u32 = 0xffff_ffff;

/// A 256-bit hash (transaction id or block hash) as two 128-bit halves,
/// `lo` holding the first sixteen bytes read little-endian.
#[derive(Clone, Copy, PartialEq, Eq, Structural, Debug)]
pub struct Hash256 {
    pub lo: u128,
    pub hi: u128,
}

impl Hash256 {
    /// The compressed id: the first sixteen bytes of the hash.
    pub open spec fn spec_compress(self) -> u128 {
        self.lo
    }

    pub fn compress(&self) -> (r: u128)
        ensures
            r == self.spec_compress(),
    {
        self.lo
    }
}

/// Reference to the output at position `vout` of transaction `txid`.
#[derive(Clone, Copy, PartialEq, Eq, Structural, Debug)]
pub struct OutPoint {
    pub txid: Hash256,
    pub vout: u32,
}

/// Key of one output in the cache model: compressed id and position.
pub type OutKey = (u128, int);

impl OutPoint {
    pub open spec fn spec_is_null(self) -> bool {
        self.txid.lo == 0 && self.txid.hi == 0 && self.vout == NULL_VOUT
    }

    /// The cache key this outpoint refers to.
    pub open spec fn key(self) -> OutKey {
        (self.txid.spec_compress(), self.vout as int)
    }

    /// True for the null outpoint of a coinbase input.
    pub fn is_null(&self) -> (r: bool)
        ensures
            r == self.spec_is_null(),
    {
        self.txid.lo == 0 && self.txid.hi == 0 && self.vout == NULL_VOUT
    }
}

/// One transaction output: an amount and its locking script.
#[derive(Debug)]
pub struct TxOutput {
    pub value: u64,
    pub script_pubkey: Vec<u8>,
}

/// Mathematical value of an output.
pub type OutputV = (u64, Seq<u8>);

impl View for TxOutput {
    type V = OutputV;

    open spec fn view(&self) -> OutputV {
        (self.value, self.script_pubkey@)
    }
}

impl TxOutput {
    /// A copy with the same value and script.
    pub fn duplicate(&self) -> (r: TxOutput)
        ensures
            r@ == self@,
    {
        let s = self.script_pubkey.clone();
        assert(s@ =~= self.script_pubkey@);
        TxOutput { value: self.value, script_pubkey: s }
    }
}

pub open spec fn outputs_view(v: Seq<TxOutput>) -> Seq<OutputV> {
    v.map_values(|o: TxOutput| o@)
}

/// Copies a list of outputs.
pub fn copy_outputs(v: &Vec<TxOutput>) -> (r: Vec<TxOutput>)
    ensures
        outputs_view(r@) == outputs_view(v@),
{
    let mut r: Vec<TxOutput> = Vec::new();
    let mut i: usize = 0;
    while i < v.len()
        invariant
            i <= v@.len(),
            r@.len() == i,
            forall|j: int| 0 <= j < i ==> (#[trigger] r@[j])@ == v@[j]@,
        decreases v@.len() - i,
    {
        r.push(v[i].duplicate());
        i = i + 1;
    }
    assert(outputs_view(r@) =~= outputs_view(v@));
    r
}

/// A transaction as read from the chain.
pub struct RawTx {
    pub txid: Hash256,
    pub inputs: Vec<OutPoint>,
    pub outputs: Vec<TxOutput>,
}

pub struct RawTxV {
    pub txid: Hash256,
    pub inputs: Seq<OutPoint>,
    pub outputs: Seq<OutputV>,
}

impl View for RawTx {
    type V = RawTxV;

    open spec fn view(&self) -> RawTxV {
        RawTxV { txid: self.txid, inputs: self.inputs@, outputs: outputs_view(self.outputs@) }
    }
}

/// A block as read from the chain.
pub struct RawBlock {
    pub hash: Hash256,
    pub txdata: Vec<RawTx>,
}

pub open spec fn txs_view(v: Seq<RawTx>) -> Seq<RawTxV> {
    v.map_values(|t: RawTx| t@)
}

/// A transaction whose spending inputs carry the outputs they spend.
pub struct ConnectedTx {
    pub txid: Hash256,
    /// The spent outputs, one per non-coinbase input, in input order.
    pub inputs: Vec<TxOutput>,
    pub outputs: Vec<TxOutput>,
}

pub struct ConnectedTxV {
    pub txid: Hash256,
    pub inputs: Seq<OutputV>,
    pub outputs: Seq<OutputV>,
}

impl View for ConnectedTx {
    type V = ConnectedTxV;

    open spec fn view(&self) -> ConnectedTxV {
        ConnectedTxV {
            txid: self.txid,
            inputs: outputs_view(self.inputs@),
            outputs: outputs_view(self.outputs@),
        }
    }
}

/// A block whose transactions are connected.
pub struct ConnectedBlock {
    pub hash: Hash256,
    pub txdata: Vec<ConnectedTx>,
}

pub open spec fn ctxs_view(v: Seq<ConnectedTx>) -> Seq<ConnectedTxV> {
    v.map_values(|t: ConnectedTx| t@)
}

} // verus!
