//! Recording a block's outputs and connecting its inputs.
use vstd::prelude::*;
use crate::cache::{UnspentCache, insert_outputs};
use crate::model::{
    ConnectedBlock, ConnectedTx, ConnectedTxV, OutKey, OutPoint, OutputV, RawBlock, RawTxV,
    TxOutput, copy_outputs, ctxs_view, outputs_view, txs_view,
};

verus! {

/// Why a block could not be connected.
#[derive(Clone, Copy, PartialEq, Eq, Structural, Debug)]
pub enum ConnectError {
    /// An input spends an output that was never recorded or is already spent.
    MissingOutput,
}

/// Spends the non-null outpoints of `ins` from `u`, in order. `None` where
/// one of them is not in the cache when its turn comes; otherwise the cache
/// afterwards and the spent outputs in input order.
pub open spec fn spend_inputs(u: Map<OutKey, OutputV>, ins: Seq<OutPoint>) -> Option<
    (Map<OutKey, OutputV>, Seq<OutputV>),
>
    decreases ins.len(),
{
    if ins.len() == 0 {
        Some((u, Seq::empty()))
    } else {
        match spend_inputs(u, ins.drop_last()) {
            None => None,
            Some((u1, outs)) => {
                let op = ins.last();
                if op.spec_is_null() {
                    Some((u1, outs))
                } else if u1.contains_key(op.key()) {
                    Some((u1.remove(op.key()), outs.push(u1[op.key()])))
                } else {
                    None
                }
            },
        }
    }
}

/// Spends the inputs of each transaction of `txs` in turn, giving the
/// spent outputs of each transaction.
pub open spec fn connect_txs(u: Map<OutKey, OutputV>, txs: Seq<RawTxV>) -> Option<
    (Map<OutKey, OutputV>, Seq<Seq<OutputV>>),
>
    decreases txs.len(),
{
    if txs.len() == 0 {
        Some((u, Seq::empty()))
    } else {
        match connect_txs(u, txs.drop_last()) {
            None => None,
            Some((u1, ins)) => match spend_inputs(u1, txs.last().inputs) {
                None => None,
                Some((u2, outs)) => Some((u2, ins.push(outs))),
            },
        }
    }
}

/// The cache keys of the non-null outpoints of `ins`, in order.
pub open spec fn spent_keys(ins: Seq<OutPoint>) -> Seq<OutKey>
    decreases ins.len(),
{
    if ins.len() == 0 {
        Seq::empty()
    } else {
        let rest = spent_keys(ins.drop_last());
        if ins.last().spec_is_null() {
            rest
        } else {
            rest.push(ins.last().key())
        }
    }
}

/// The cache keys spent by the transactions of `txs`, in order.
pub open spec fn block_spent_keys(txs: Seq<RawTxV>) -> Seq<OutKey>
    decreases txs.len(),
{
    if txs.len() == 0 {
        Seq::empty()
    } else {
        block_spent_keys(txs.drop_last()) + spent_keys(txs.last().inputs)
    }
}

/// Records the outputs of each transaction of `txs` in turn.
pub open spec fn record_txs(u: Map<OutKey, OutputV>, txs: Seq<RawTxV>) -> Map<OutKey, OutputV>
    decreases txs.len(),
{
    if txs.len() == 0 {
        u
    } else {
        let last = txs.last();
        insert_outputs(record_txs(u, txs.drop_last()), last.txid.spec_compress(), last.outputs)
    }
}

/// `cb` is block `b` with the spent outputs `ins` of each transaction.
pub open spec fn is_connected(b: &RawBlock, ins: Seq<Seq<OutputV>>, cb: &ConnectedBlock) -> bool {
    let txs = txs_view(b.txdata@);
    &&& cb.hash == b.hash
    &&& cb.txdata@.len() == txs.len()
    &&& forall|t: int|
        0 <= t < txs.len() ==> #[trigger] ctxs_view(cb.txdata@)[t] == (ConnectedTxV {
            txid: txs[t].txid,
            inputs: ins[t],
            outputs: txs[t].outputs,
        })
}

proof fn lemma_spend_fail_extends(u: Map<OutKey, OutputV>, s: Seq<OutPoint>, i: int)
    requires
        0 <= i <= s.len(),
        spend_inputs(u, s.take(i)) is None,
    ensures
        spend_inputs(u, s) is None,
    decreases s.len() - i,
{
    if i < s.len() {
        assert(s.take(i + 1).drop_last() =~= s.take(i));
        lemma_spend_fail_extends(u, s, i + 1);
    } else {
        assert(s.take(i) =~= s);
    }
}

proof fn lemma_connect_fail_extends(u: Map<OutKey, OutputV>, s: Seq<RawTxV>, i: int)
    requires
        0 <= i <= s.len(),
        connect_txs(u, s.take(i)) is None,
    ensures
        connect_txs(u, s) is None,
    decreases s.len() - i,
{
    if i < s.len() {
        assert(s.take(i + 1).drop_last() =~= s.take(i));
        lemma_connect_fail_extends(u, s, i + 1);
    } else {
        assert(s.take(i) =~= s);
    }
}

/// Every output that `ins` spends was in the cache before, with the value
/// handed back for it; the cache afterwards is the cache before without
/// the spent outputs.
pub proof fn lemma_spent_outputs_recorded(u: Map<OutKey, OutputV>, ins: Seq<OutPoint>)
    requires
        spend_inputs(u, ins) is Some,
    ensures
        ({
            let (u2, outs) = spend_inputs(u, ins)->Some_0;
            let keys = spent_keys(ins);
            &&& outs.len() == keys.len()
            &&& forall|k: int|
                0 <= k < keys.len() ==> u.contains_key(#[trigger] keys[k]) && outs[k] == u[keys[k]]
            &&& u2 == u.remove_keys(keys.to_set())
        }),
    decreases ins.len(),
{
    if ins.len() > 0 {
        let rest = ins.drop_last();
        lemma_spent_outputs_recorded(u, rest);
        let (u1, outs1) = spend_inputs(u, rest)->Some_0;
        let keys1 = spent_keys(rest);
        let op = ins.last();
        if !op.spec_is_null() {
            let key = op.key();
            assert(!keys1.to_set().contains(key)) by {
                if keys1.to_set().contains(key) {
                    let k = choose|k: int| 0 <= k < keys1.len() && keys1[k] == key;
                    assert(keys1[k] == key);
                }
            }
            keys1.lemma_push_to_set_commute(key);
            assert(keys1.push(key).to_set() =~= keys1.to_set().insert(key));
            assert(u1.remove(key) =~= u.remove_keys(keys1.push(key).to_set()));
            let keys = keys1.push(key);
            assert forall|k: int| 0 <= k < keys.len() implies u.contains_key(#[trigger] keys[k])
                && spend_inputs(u, ins)->Some_0.1[k] == u[keys[k]] by {
                if k < keys1.len() {
                    assert(keys1[k] == keys[k]);
                }
            }
        }
    } else {
        assert(u.remove_keys(Seq::<OutKey>::empty().to_set()) =~= u);
    }
}

/// Connecting `txs` removes exactly the keys they spend, all of which were
/// in the cache.
pub proof fn lemma_connect_removes(u: Map<OutKey, OutputV>, txs: Seq<RawTxV>)
    requires
        connect_txs(u, txs) is Some,
    ensures
        block_spent_keys(txs).to_set().subset_of(u.dom()),
        connect_txs(u, txs)->Some_0.0 == u.remove_keys(block_spent_keys(txs).to_set()),
    decreases txs.len(),
{
    if txs.len() > 0 {
        let rest = txs.drop_last();
        lemma_connect_removes(u, rest);
        let u1 = connect_txs(u, rest)->Some_0.0;
        let ins = txs.last().inputs;
        lemma_spent_outputs_recorded(u1, ins);
        let k1 = block_spent_keys(rest);
        let k2 = spent_keys(ins);
        vstd::seq_lib::seq_to_set_distributes_over_add(k1, k2);
        assert forall|k: OutKey| #[trigger] k2.to_set().contains(k) implies u1.contains_key(k) by {
            let i = choose|i: int| 0 <= i < k2.len() && k2[i] == k;
            assert(u1.contains_key(k2[i]));
        }
        assert(connect_txs(u, txs)->Some_0.0 =~= u.remove_keys(block_spent_keys(txs).to_set()));
    } else {
        assert(u.remove_keys(Set::empty()) =~= u);
    }
}

proof fn lemma_spent_keys_prefix_subset(ins: Seq<OutPoint>, i: int)
    requires
        0 <= i <= ins.len(),
    ensures
        spent_keys(ins.take(i)).to_set().subset_of(spent_keys(ins).to_set()),
    decreases ins.len() - i,
{
    if i < ins.len() {
        assert(ins.take(i + 1).drop_last() =~= ins.take(i));
        lemma_spent_keys_prefix_subset(ins, i + 1);
        let a = spent_keys(ins.take(i));
        let op = ins.take(i + 1).last();
        if !op.spec_is_null() {
            a.lemma_push_to_set_commute(op.key());
        }
    } else {
        assert(ins.take(i) =~= ins);
    }
}

proof fn lemma_block_keys_prefix_subset(txs: Seq<RawTxV>, t: int)
    requires
        0 <= t <= txs.len(),
    ensures
        block_spent_keys(txs.take(t)).to_set().subset_of(block_spent_keys(txs).to_set()),
    decreases txs.len() - t,
{
    if t < txs.len() {
        assert(txs.take(t + 1).drop_last() =~= txs.take(t));
        lemma_block_keys_prefix_subset(txs, t + 1);
        vstd::seq_lib::seq_to_set_distributes_over_add(
            block_spent_keys(txs.take(t)),
            spent_keys(txs.take(t + 1).last().inputs),
        );
    } else {
        assert(txs.take(t) =~= txs);
    }
}

/// Records the outputs of every transaction of `block` in the cache.
pub fn update_unspent_cache(cache: &mut UnspentCache, block: &RawBlock)
    requires
        old(cache).wf(),
    ensures
        final(cache).wf(),
        final(cache)@ == record_txs(old(cache)@, txs_view(block.txdata@)),
{
    let ghost txs = txs_view(block.txdata@);
    let mut t: usize = 0;
    while t < block.txdata.len()
        invariant
            cache.wf(),
            t <= txs.len(),
            txs == txs_view(block.txdata@),
            txs.len() == block.txdata@.len(),
            cache@ == record_txs(old(cache)@, txs.take(t as int)),
        decreases txs.len() - t,
    {
        let tx = &block.txdata[t];
        cache.insert_tx(tx.txid.compress(), &tx.outputs);
        t = t + 1;
        assert(txs.take(t as int).drop_last() =~= txs.take(t - 1));
    }
    assert(txs.take(t as int) =~= txs);
}

/// Connects `block`: each input that is not a coinbase input takes the
/// output it spends out of the cache.
pub fn connect_outpoints(cache: &mut UnspentCache, block: &RawBlock) -> (r: Result<
    ConnectedBlock,
    ConnectError,
>)
    requires
        old(cache).wf(),
    ensures
        final(cache).wf(),
        match connect_txs(old(cache)@, txs_view(block.txdata@)) {
            None => {
                &&& r == Err::<ConnectedBlock, ConnectError>(ConnectError::MissingOutput)
                &&& final(cache)@.submap_of(old(cache)@)
                &&& old(cache)@.remove_keys(
                    block_spent_keys(txs_view(block.txdata@)).to_set(),
                ).submap_of(final(cache)@)
            },
            Some((u, ins)) => r is Ok && final(cache)@ == u && is_connected(block, ins, &r->Ok_0),
        },
{
    let ghost txs = txs_view(block.txdata@);
    let ghost mut ins: Seq<Seq<OutputV>> = Seq::empty();
    let mut out_txs: Vec<ConnectedTx> = Vec::new();
    let mut t: usize = 0;
    while t < block.txdata.len()
        invariant
            cache.wf(),
            t <= txs.len(),
            txs == txs_view(block.txdata@),
            txs.len() == block.txdata@.len(),
            ins.len() == t,
            connect_txs(old(cache)@, txs.take(t as int)) == Some((cache@, ins)),
            out_txs@.len() == t,
            forall|j: int|
                0 <= j < t ==> #[trigger] ctxs_view(out_txs@)[j] == (ConnectedTxV {
                    txid: txs[j].txid,
                    inputs: ins[j],
                    outputs: txs[j].outputs,
                }),
        decreases txs.len() - t,
    {
        let tx = &block.txdata[t];
        let ghost u_start = cache@;
        let ghost ins_t = tx.inputs@;
        assert(txs.take(t + 1).drop_last() =~= txs.take(t as int));
        assert(txs.take(t + 1).last() == txs[t as int]);
        assert(txs[t as int].inputs == ins_t);
        let mut resolved: Vec<TxOutput> = Vec::new();
        let mut i: usize = 0;
        while i < tx.inputs.len()
            invariant
                cache.wf(),
                i <= ins_t.len(),
                ins_t == tx.inputs@,
                t < txs.len(),
                txs == txs_view(block.txdata@),
                txs.len() == block.txdata@.len(),
                connect_txs(old(cache)@, txs.take(t as int)) == Some((u_start, ins)),
                txs[t as int].inputs == ins_t,
                txs.take(t + 1).drop_last() == txs.take(t as int),
                txs.take(t + 1).last() == txs[t as int],
                spend_inputs(u_start, ins_t.take(i as int)) == Some(
                    (cache@, outputs_view(resolved@)),
                ),
            decreases ins_t.len() - i,
        {
            let op = tx.inputs[i];
            assert(ins_t.take(i + 1).drop_last() =~= ins_t.take(i as int));
            if !op.is_null() {
                match cache.remove_slot(op.txid.compress(), op.vout) {
                    Some(o) => {
                        resolved.push(o);
                        assert(outputs_view(resolved@) =~= outputs_view(resolved@.drop_last()).push(
                            resolved@.last()@,
                        ));
                    },
                    None => {
                        proof {
                            assert(ins_t.take(i + 1).last() == op);
                            assert(spend_inputs(u_start, ins_t.take(i + 1)) is None);
                            lemma_spend_fail_extends(u_start, ins_t, i + 1);
                            assert(connect_txs(old(cache)@, txs.take(t + 1)) is None);
                            lemma_connect_removes(old(cache)@, txs.take(t as int));
                            lemma_spent_outputs_recorded(u_start, ins_t.take(i as int));
                            lemma_spent_keys_prefix_subset(ins_t, i as int);
                            lemma_block_keys_prefix_subset(txs, t + 1);
                            let k1 = block_spent_keys(txs.take(t as int));
                            let k2 = spent_keys(ins_t.take(i as int));
                            let kt = spent_keys(ins_t);
                            let all = block_spent_keys(txs);
                            vstd::seq_lib::seq_to_set_distributes_over_add(k1, kt);
                            assert(block_spent_keys(txs.take(t + 1)) == k1 + kt);
                            assert(cache@ =~= old(cache)@.remove_keys(k1.to_set().union(
                                k2.to_set(),
                            )));
                            assert(k1.to_set().union(k2.to_set()).subset_of(all.to_set()));
                            lemma_connect_fail_extends(old(cache)@, txs, t + 1);
                        }
                        return Err(ConnectError::MissingOutput);
                    },
                }
            }
            i = i + 1;
        }
        assert(ins_t.take(i as int) =~= ins_t);
        let ghost outs = outputs_view(resolved@);
        let outputs = copy_outputs(&tx.outputs);
        let ghost old_out = out_txs@;
        out_txs.push(ConnectedTx { txid: tx.txid, inputs: resolved, outputs });
        proof {
            let old_ins = ins;
            ins = ins.push(outs);
            assert(txs[t as int].outputs == outputs_view(tx.outputs@));
            assert forall|j: int| 0 <= j < t + 1 implies #[trigger] ctxs_view(out_txs@)[j] == (
            ConnectedTxV { txid: txs[j].txid, inputs: ins[j], outputs: txs[j].outputs }) by {
                if j < t {
                    assert(out_txs@[j] == old_out[j]);
                    assert(ctxs_view(old_out)[j] == old_out[j]@);
                    assert(ins[j] == old_ins[j]);
                }
            }
        }
        t = t + 1;
    }
    assert(txs.take(t as int) =~= txs);
    Ok(ConnectedBlock { hash: block.hash, txdata: out_txs })
}

} // verus!
