//! The in-order processing of a chain: each block's outputs are recorded,
//! then its inputs are connected; the first block that cannot be connected
//! stops the run for good.
use vstd::prelude::*;
use crate::cache::UnspentCache;
use crate::cache::insert_outputs;
use crate::connect::{
    ConnectError, block_spent_keys, connect_outpoints, connect_txs, is_connected,
    lemma_connect_removes, lemma_spent_outputs_recorded, record_txs, spend_inputs, spent_keys,
    update_unspent_cache,
};
use crate::model::{ConnectedBlock, OutKey, OutPoint, OutputV, RawBlock, RawTxV, txs_view};

verus! {

/// Processing one block on cache `u`: record its outputs, then spend its
/// inputs.
pub open spec fn process_block(u: Map<OutKey, OutputV>, txs: Seq<RawTxV>) -> Option<
    (Map<OutKey, OutputV>, Seq<Seq<OutputV>>),
> {
    connect_txs(record_txs(u, txs), txs)
}

/// Connects blocks in height order over one cache.
pub struct BlockConnector {
    cache: UnspentCache,
    failed: bool,
}

impl BlockConnector {
    pub closed spec fn wf(&self) -> bool {
        self.cache.wf()
    }

    /// The unspent outputs recorded so far.
    pub closed spec fn unspent(&self) -> Map<OutKey, OutputV> {
        self.cache@
    }

    /// Whether a block could not be connected.
    pub closed spec fn stopped(&self) -> bool {
        self.failed
    }

    pub fn new() -> (r: BlockConnector)
        ensures
            r.wf(),
            r.unspent() == Map::<OutKey, OutputV>::empty(),
            !r.stopped(),
    {
        BlockConnector { cache: UnspentCache::new(), failed: false }
    }

    /// Whether a block could not be connected; no block is connected after.
    pub fn has_failed(&self) -> (r: bool)
        ensures
            r == self.stopped(),
    {
        self.failed
    }

    /// The cache of unspent outputs.
    pub fn cache(&self) -> (r: &UnspentCache)
        requires
            self.wf(),
        ensures
            r.wf(),
            r@ == self.unspent(),
    {
        &self.cache
    }

    /// Processes the next block: `Some` with the connected block, or `None`
    /// where the block spends an output that is not unspent, or where an
    /// earlier block did. After a `None` every later call gives `None`.
    pub fn process(&mut self, block: &RawBlock) -> (r: Option<ConnectedBlock>)
        requires
            old(self).wf(),
        ensures
            final(self).wf(),
            old(self).stopped() ==> r is None && final(self).stopped() && final(self).unspent()
                == old(self).unspent(),
            !old(self).stopped() ==> match process_block(
                old(self).unspent(),
                txs_view(block.txdata@),
            ) {
                None => r is None && final(self).stopped(),
                Some((u, ins)) => {
                    &&& r is Some
                    &&& is_connected(block, ins, &r->Some_0)
                    &&& final(self).unspent() == u
                    &&& !final(self).stopped()
                },
            },
    {
        if self.failed {
            return None;
        }
        update_unspent_cache(&mut self.cache, block);
        match connect_outpoints(&mut self.cache, block) {
            Ok(b) => Some(b),
            Err(ConnectError::MissingOutput) => {
                self.failed = true;
                None
            },
        }
    }
}


/// Coinbase inputs neither look up nor remove anything: inputs that are all
/// null spend nothing and leave the cache as it was.
pub proof fn lemma_coinbase_untouched(u: Map<OutKey, OutputV>, ins: Seq<OutPoint>)
    requires
        forall|i: int| 0 <= i < ins.len() ==> (#[trigger] ins[i]).spec_is_null(),
    ensures
        spend_inputs(u, ins) == Some((u, Seq::<OutputV>::empty())),
        spent_keys(ins).len() == 0,
    decreases ins.len(),
{
    if ins.len() > 0 {
        lemma_coinbase_untouched(u, ins.drop_last());
        assert(ins.last() == ins[ins.len() - 1]);
    }
}


/// Processing `blocks` in order from an empty cache: the cache afterwards,
/// or `None` where a block cannot be connected.
pub open spec fn process_chain(blocks: Seq<Seq<RawTxV>>) -> Option<Map<OutKey, OutputV>>
    decreases blocks.len(),
{
    if blocks.len() == 0 {
        Some(Map::empty())
    } else {
        match process_chain(blocks.drop_last()) {
            None => None,
            Some(u) => match process_block(u, blocks.last()) {
                None => None,
                Some((u2, _)) => Some(u2),
            },
        }
    }
}

/// The outputs that `blocks` create, by key.
pub open spec fn created_outputs(blocks: Seq<Seq<RawTxV>>) -> Map<OutKey, OutputV>
    decreases blocks.len(),
{
    if blocks.len() == 0 {
        Map::empty()
    } else {
        record_txs(created_outputs(blocks.drop_last()), blocks.last())
    }
}

/// The keys that the inputs of `blocks` spend.
pub open spec fn chain_spent_keys(blocks: Seq<Seq<RawTxV>>) -> Set<OutKey>
    decreases blocks.len(),
{
    if blocks.len() == 0 {
        Set::empty()
    } else {
        chain_spent_keys(blocks.drop_last()).union(block_spent_keys(blocks.last()).to_set())
    }
}

/// The compressed ids of the transactions of `txs`.
pub open spec fn tx_ids(txs: Seq<RawTxV>) -> Set<u128> {
    Set::new(|id: u128| exists|i: int| 0 <= i < txs.len() && #[trigger] txs[i].txid.spec_compress() == id)
}

/// No compressed id is used by transactions of two different blocks.
pub open spec fn ids_distinct_across_blocks(blocks: Seq<Seq<RawTxV>>) -> bool {
    forall|i: int, j: int|
        0 <= i < j < blocks.len() ==> tx_ids(#[trigger] blocks[i]).disjoint(tx_ids(#[trigger] blocks[j]))
}

proof fn lemma_record_other_ids(u: Map<OutKey, OutputV>, txs: Seq<RawTxV>)
    ensures
        forall|k: OutKey| #[trigger] record_txs(u, txs).contains_key(k) ==> u.contains_key(k)
            || tx_ids(txs).contains(k.0),
        forall|k: OutKey|
            !tx_ids(txs).contains(k.0) ==> (#[trigger] record_txs(u, txs).contains_key(k)
                == u.contains_key(k) && (u.contains_key(k) ==> record_txs(u, txs)[k] == u[k])),
    decreases txs.len(),
{
    if txs.len() > 0 {
        let rest = txs.drop_last();
        lemma_record_other_ids(u, rest);
        let id = txs.last().txid.spec_compress();
        assert(txs[txs.len() - 1].txid.spec_compress() == id);
        assert forall|x: u128| tx_ids(rest).contains(x) implies tx_ids(txs).contains(x) by {
            let i = choose|i: int| 0 <= i < rest.len() && #[trigger] rest[i].txid.spec_compress() == x;
            assert(txs[i] == rest[i]);
        }
        assert(tx_ids(txs).contains(id));
        let r = record_txs(u, txs);
        assert(r == insert_outputs(record_txs(u, rest), id, txs.last().outputs));
        assert forall|k: OutKey| #[trigger] r.contains_key(k) implies u.contains_key(k)
            || tx_ids(txs).contains(k.0) by {
            if k.0 != id {
                assert(record_txs(u, rest).contains_key(k));
            }
        }
        assert forall|k: OutKey| !tx_ids(txs).contains(k.0) implies (#[trigger] r.contains_key(k)
            == u.contains_key(k) && (u.contains_key(k) ==> r[k] == u[k])) by {
            assert(!tx_ids(rest).contains(k.0));
        }
    }
}

proof fn lemma_record_commutes_remove(u: Map<OutKey, OutputV>, txs: Seq<RawTxV>, s: Set<OutKey>)
    requires
        forall|k: OutKey| #[trigger] s.contains(k) ==> !tx_ids(txs).contains(k.0),
    ensures
        record_txs(u.remove_keys(s), txs) == record_txs(u, txs).remove_keys(s),
    decreases txs.len(),
{
    if txs.len() > 0 {
        let rest = txs.drop_last();
        let last = txs.last();
        let id = last.txid.spec_compress();
        assert(txs[txs.len() - 1].txid.spec_compress() == id);
        assert forall|k: OutKey| #[trigger] s.contains(k) implies !tx_ids(rest).contains(k.0) by {
            if tx_ids(rest).contains(k.0) {
                let i = choose|i: int| 0 <= i < rest.len() && #[trigger] rest[i].txid.spec_compress() == k.0;
                assert(txs[i] == rest[i]);
            }
        }
        lemma_record_commutes_remove(u, rest, s);
        let a = record_txs(u.remove_keys(s), txs);
        let b = record_txs(u, txs).remove_keys(s);
        assert(a =~= b);
    } else {
    }
}


/// After processing a chain whose blocks use distinct transaction ids, the
/// cache holds exactly the outputs that the chain created and did not
/// spend.
pub proof fn lemma_cache_holds_unspent(blocks: Seq<Seq<RawTxV>>)
    requires
        ids_distinct_across_blocks(blocks),
        process_chain(blocks) is Some,
    ensures
        process_chain(blocks)->Some_0 == created_outputs(blocks).remove_keys(
            chain_spent_keys(blocks),
        ),
        chain_spent_keys(blocks).subset_of(created_outputs(blocks).dom()),
        forall|k: OutKey|
            #[trigger] created_outputs(blocks).contains_key(k) ==> exists|i: int|
                0 <= i < blocks.len() && tx_ids(#[trigger] blocks[i]).contains(k.0),
    decreases blocks.len(),
{
    if blocks.len() == 0 {
        assert(Map::<OutKey, OutputV>::empty().remove_keys(Set::empty()) =~= Map::empty());
    } else {
        let prev = blocks.drop_last();
        let b = blocks.last();
        assert forall|i: int, j: int| 0 <= i < j < prev.len() implies tx_ids(#[trigger] prev[i]).disjoint(
            tx_ids(#[trigger] prev[j]),
        ) by {
            assert(prev[i] == blocks[i] && prev[j] == blocks[j]);
        }
        lemma_cache_holds_unspent(prev);
        let c = created_outputs(prev);
        let s = chain_spent_keys(prev);
        let u0 = process_chain(prev)->Some_0;
        assert(b == blocks[blocks.len() - 1]);
        assert forall|k: OutKey| #[trigger] s.contains(k) implies !tx_ids(b).contains(k.0) by {
            assert(c.contains_key(k));
            let i = choose|i: int| 0 <= i < prev.len() && tx_ids(#[trigger] prev[i]).contains(k.0);
            assert(prev[i] == blocks[i]);
            assert(tx_ids(blocks[i]).disjoint(tx_ids(blocks[blocks.len() - 1])));
        }
        lemma_record_commutes_remove(c, b, s);
        lemma_record_other_ids(c, b);
        let u1 = record_txs(u0, b);
        lemma_connect_removes(u1, b);
        let kset = block_spent_keys(b).to_set();
        let created = created_outputs(blocks);
        assert(created == record_txs(c, b));
        assert(process_chain(blocks)->Some_0 =~= created.remove_keys(s.union(kset)));
        assert forall|k: OutKey| #[trigger] created.contains_key(k) implies exists|i: int|
            0 <= i < blocks.len() && tx_ids(#[trigger] blocks[i]).contains(k.0) by {
            if tx_ids(b).contains(k.0) {
                assert(tx_ids(blocks[blocks.len() - 1]).contains(k.0));
            } else {
                assert(c.contains_key(k));
                let i = choose|i: int| 0 <= i < prev.len() && tx_ids(#[trigger] prev[i]).contains(k.0);
                assert(prev[i] == blocks[i]);
            }
        }
        assert forall|k: OutKey| #[trigger] chain_spent_keys(blocks).contains(k) implies created.contains_key(k) by {
            if s.contains(k) {
                assert(c.contains_key(k));
            } else {
                assert(u1.contains_key(k));
            }
        }
    }
}


proof fn lemma_connect_resolves(u: Map<OutKey, OutputV>, txs: Seq<RawTxV>)
    requires
        connect_txs(u, txs) is Some,
    ensures
        ({
            let ins = connect_txs(u, txs)->Some_0.1;
            &&& ins.len() == txs.len()
            &&& forall|t: int|
                0 <= t < txs.len() ==> (#[trigger] ins[t]).len() == spent_keys(txs[t].inputs).len()
            &&& forall|t: int, k: int|
                #![trigger spent_keys(txs[t].inputs)[k]]
                0 <= t < txs.len() && 0 <= k < spent_keys(txs[t].inputs).len() ==> {
                    &&& u.contains_key(spent_keys(txs[t].inputs)[k])
                    &&& ins[t][k] == u[spent_keys(txs[t].inputs)[k]]
                }
        }),
    decreases txs.len(),
{
    if txs.len() > 0 {
        let rest = txs.drop_last();
        lemma_connect_resolves(u, rest);
        lemma_connect_removes(u, rest);
        let u1 = connect_txs(u, rest)->Some_0.0;
        let last = txs.last();
        lemma_spent_outputs_recorded(u1, last.inputs);
        let ins = connect_txs(u, txs)->Some_0.1;
        let ins_rest = connect_txs(u, rest)->Some_0.1;
        let outs = spend_inputs(u1, last.inputs)->Some_0.1;
        assert(ins == ins_rest.push(outs));
        assert forall|t: int| 0 <= t < txs.len() implies (#[trigger] ins[t]).len() == spent_keys(
            txs[t].inputs,
        ).len() by {
            if t < rest.len() {
                assert(txs[t] == rest[t]);
                assert(ins[t] == ins_rest[t]);
            }
        }
        assert forall|t: int, k: int|
            #![trigger spent_keys(txs[t].inputs)[k]]
            0 <= t < txs.len() && 0 <= k < spent_keys(txs[t].inputs).len() implies {
                &&& u.contains_key(spent_keys(txs[t].inputs)[k])
                &&& ins[t][k] == u[spent_keys(txs[t].inputs)[k]]
            } by {
            if t < rest.len() {
                assert(txs[t] == rest[t]);
                assert(ins[t] == ins_rest[t]);
                let key = spent_keys(rest[t].inputs)[k];
                assert(u.contains_key(key));
                assert(ins_rest[t][k] == u[key]);
            } else {
                assert(txs[t] == last);
                assert(ins[t] == outs);
                let key = spent_keys(last.inputs)[k];
                assert(u1.contains_key(key));
                assert(outs[k] == u1[key]);
                assert(u1 == u.remove_keys(block_spent_keys(rest).to_set()));
                assert(u1[key] == u[key]);
            }
        }
    }
}

/// In a chain whose blocks use distinct transaction ids, each output that
/// the last block's inputs resolve to is the output that the chain created
/// under that key.
pub proof fn lemma_resolved_outputs_created(blocks: Seq<Seq<RawTxV>>)
    requires
        blocks.len() > 0,
        ids_distinct_across_blocks(blocks),
        process_chain(blocks) is Some,
    ensures
        ({
            let txs = blocks.last();
            let ins = process_block(process_chain(blocks.drop_last())->Some_0, txs)->Some_0.1;
            &&& ins.len() == txs.len()
            &&& forall|t: int|
                0 <= t < txs.len() ==> (#[trigger] ins[t]).len() == spent_keys(txs[t].inputs).len()
            &&& forall|t: int, k: int|
                #![trigger spent_keys(txs[t].inputs)[k]]
                0 <= t < txs.len() && 0 <= k < spent_keys(txs[t].inputs).len() ==> {
                    &&& created_outputs(blocks).contains_key(
                        spent_keys(txs[t].inputs)[k],
                    )
                    &&& ins[t][k] == created_outputs(blocks)[spent_keys(
                        txs[t].inputs,
                    )[k]]
                }
        }),
{
    let prev = blocks.drop_last();
    let b = blocks.last();
    assert forall|i: int, j: int| 0 <= i < j < prev.len() implies tx_ids(#[trigger] prev[i]).disjoint(
        tx_ids(#[trigger] prev[j]),
    ) by {
        assert(prev[i] == blocks[i] && prev[j] == blocks[j]);
    }
    lemma_cache_holds_unspent(prev);
    let c = created_outputs(prev);
    let s = chain_spent_keys(prev);
    let u0 = process_chain(prev)->Some_0;
    assert(b == blocks[blocks.len() - 1]);
    assert forall|k: OutKey| #[trigger] s.contains(k) implies !tx_ids(b).contains(k.0) by {
        assert(c.contains_key(k));
        let i = choose|i: int| 0 <= i < prev.len() && tx_ids(#[trigger] prev[i]).contains(k.0);
        assert(prev[i] == blocks[i]);
        assert(tx_ids(blocks[i]).disjoint(tx_ids(blocks[blocks.len() - 1])));
    }
    lemma_record_commutes_remove(c, b, s);
    let u1 = record_txs(u0, b);
    assert(u1 == record_txs(c, b).remove_keys(s));
    lemma_connect_resolves(u1, b);
}


/// A chain in which some block cannot be connected stays unconnectable
/// however many blocks follow it.
pub proof fn lemma_failure_is_final(blocks: Seq<Seq<RawTxV>>, i: int)
    requires
        0 <= i <= blocks.len(),
        process_chain(blocks.take(i)) is None,
    ensures
        process_chain(blocks) is None,
    decreases blocks.len() - i,
{
    if i < blocks.len() {
        assert(blocks.take(i + 1).drop_last() =~= blocks.take(i));
        lemma_failure_is_final(blocks, i + 1);
    } else {
        assert(blocks.take(i) =~= blocks);
    }
}

} // verus!
