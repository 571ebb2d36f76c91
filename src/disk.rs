//! The logic of the disk-backed cache: its keys, the batch of entries a
//! block writes, the keys a block spends, and connecting a block from the
//! values read back for those keys. The store itself lies outside.
use vstd::prelude::*;
use bitcoin::consensus::{Decodable, Encodable};
use crate::connect::{ConnectError, block_spent_keys, is_connected, spent_keys};
use crate::model::{
    ConnectedBlock, ConnectedTx, ConnectedTxV, OutKey, OutPoint, OutputV, RawBlock, RawTxV,
    TxOutput, copy_outputs, ctxs_view, outputs_view, txs_view,
};

verus! {

/// Largest number of bytes that one decode reads.
pub const MAX_DECODE_LEN: usize = 4_000_000;

/// Length of a key: a compressed id and an output position.
pub const KEY_LEN: usize = 20;

/// The key of output `n` of the transaction with compressed id `id`: the id's
/// sixteen bytes, then the position's four bytes, least significant first.
pub open spec fn txo_key_bytes(id: u128, n: u32) -> Seq<u8> {
    Seq::new(
        20,
        |i: int|
            if i < 16 {
                (id >> ((8 * i) as u128)) as u8
            } else {
                (n >> ((8 * (i - 16)) as u32)) as u8
            },
    )
}

/// The `len` bytes of `x`, least significant first.
pub open spec fn le_bytes(x: nat, len: nat) -> Seq<u8>
    decreases len,
{
    if len == 0 {
        Seq::empty()
    } else {
        seq![(x % 256) as u8] + le_bytes(x / 256, (len - 1) as nat)
    }
}

/// The variable-length encoding of a length.
pub open spec fn compact_size(n: nat) -> Seq<u8> {
    if n < 0xfd {
        seq![n as u8]
    } else if n <= 0xffff {
        seq![0xfdu8] + le_bytes(n, 2)
    } else if n <= 0xffff_ffff {
        seq![0xfeu8] + le_bytes(n, 4)
    } else {
        seq![0xffu8] + le_bytes(n, 8)
    }
}

/// The canonical encoding of an output: its value in eight bytes, least
/// significant first, then its script with the script's length in front.
pub open spec fn txout_encoding(o: OutputV) -> Seq<u8> {
    le_bytes(o.0 as nat, 8) + compact_size(o.1.len()) + o.1
}

/// The output decoded from `b`, if `b` starts with a well-formed one.
pub uninterp spec fn decoded_txout(b: Seq<u8>) -> Option<OutputV>;

/// Relies on `bitcoin::TxOut::consensus_encode`: the value as a
/// little-endian `u64`, then the script with a compact-size length.
#[verifier::external_body]
fn txo_to_u8(txo: &TxOutput) -> (r: Vec<u8>)
    ensures
        r@ == txout_encoding(txo@),
{
    let out = bitcoin::TxOut {
        value: txo.value,
        script_pubkey: bitcoin::Script::from(txo.script_pubkey.clone()),
    };
    let mut bytes = Vec::new();
    out.consensus_encode(&mut bytes).unwrap();
    bytes
}

/// Relies on `bitcoin::TxOut::consensus_decode`: the result depends on the
/// bytes alone, fewer than nine bytes (a value and a length) never decode,
/// and the canonical encoding of an output of at most `MAX_DECODE_LEN`
/// bytes decodes to that output.
#[verifier::external_body]
fn txo_from_u8(bytes: &[u8]) -> (r: Option<TxOutput>)
    ensures
        bytes@.len() < 9 ==> r is None,
        r is Some == decoded_txout(bytes@) is Some,
        r is Some ==> r->Some_0@ == decoded_txout(bytes@)->Some_0,
        forall|o: OutputV|
            bytes@ == txout_encoding(o) && bytes@.len() <= MAX_DECODE_LEN ==> r is Some
                && r->Some_0@ == o,
{
    let mut reader = bytes;
    match bitcoin::TxOut::consensus_decode(&mut reader) {
        Ok(txo) => Some(TxOutput { value: txo.value, script_pubkey: txo.script_pubkey.to_bytes() }),
        Err(_) => None,
    }
}

/// The key under which output `n` of transaction `txid_compressed` is stored.
pub fn txo_key(txid_compressed: u128, n: u32) -> (r: Vec<u8>)
    ensures
        r@ == txo_key_bytes(txid_compressed, n),
{
    let mut bytes: Vec<u8> = Vec::new();
    let mut i: u32 = 0;
    while i < 16
        invariant
            i <= 16,
            bytes@.len() == i,
            forall|j: int| 0 <= j < i ==> bytes@[j] == txo_key_bytes(txid_compressed, n)[j],
        decreases 16 - i,
    {
        bytes.push((txid_compressed >> ((8 * i) as u128)) as u8);
        i = i + 1;
    }
    while i < 20
        invariant
            16 <= i <= 20,
            bytes@.len() == i,
            forall|j: int| 0 <= j < i ==> bytes@[j] == txo_key_bytes(txid_compressed, n)[j],
        decreases 20 - i,
    {
        bytes.push((n >> (8 * (i - 16))) as u8);
        i = i + 1;
    }
    assert(bytes@ =~= txo_key_bytes(txid_compressed, n));
    bytes
}

} // verus!

verus! {

/// The key and value written for each output of `txs`, in order.
pub open spec fn output_entries(txs: Seq<RawTxV>) -> Seq<(Seq<u8>, Seq<u8>)>
    decreases txs.len(),
{
    if txs.len() == 0 {
        Seq::empty()
    } else {
        output_entries(txs.drop_last()) + tx_entries(txs.last(), txs.last().outputs.len() as int)
    }
}

/// The entries of the first `n` outputs of `tx`.
pub open spec fn tx_entries(tx: RawTxV, n: int) -> Seq<(Seq<u8>, Seq<u8>)> {
    Seq::new(
        n as nat,
        |j: int| (txo_key_bytes(tx.txid.spec_compress(), j as u32), txout_encoding(tx.outputs[j])),
    )
}

pub open spec fn pairs_view(v: Seq<(Vec<u8>, Vec<u8>)>) -> Seq<(Seq<u8>, Seq<u8>)> {
    v.map_values(|p: (Vec<u8>, Vec<u8>)| (p.0@, p.1@))
}

pub open spec fn bytes_view(v: Seq<Vec<u8>>) -> Seq<Seq<u8>> {
    v.map_values(|b: Vec<u8>| b@)
}

/// The stored form of each key of `keys`.
pub open spec fn keys_bytes(keys: Seq<OutKey>) -> Seq<Seq<u8>> {
    keys.map_values(|k: OutKey| txo_key_bytes(k.0, k.1 as u32))
}

/// The key/value batch that records every output of `block`.
pub fn block_output_entries(block: &RawBlock) -> (r: Vec<(Vec<u8>, Vec<u8>)>)
    requires
        forall|t: int|
            0 <= t < block.txdata@.len() ==> #[trigger] block.txdata@[t].outputs@.len()
                <= 0x1_0000_0000,
    ensures
        pairs_view(r@) == output_entries(txs_view(block.txdata@)),
{
    let ghost txs = txs_view(block.txdata@);
    let mut r: Vec<(Vec<u8>, Vec<u8>)> = Vec::new();
    let mut t: usize = 0;
    while t < block.txdata.len()
        invariant
            t <= txs.len(),
            txs == txs_view(block.txdata@),
            txs.len() == block.txdata@.len(),
            pairs_view(r@) == output_entries(txs.take(t as int)),
            forall|t: int|
                0 <= t < block.txdata@.len() ==> #[trigger] block.txdata@[t].outputs@.len()
                    <= 0x1_0000_0000,
        decreases txs.len() - t,
    {
        let tx = &block.txdata[t];
        let ghost tv = txs[t as int];
        let ghost before = pairs_view(r@);
        assert(tv.outputs == outputs_view(tx.outputs@));
        let id = tx.txid.compress();
        let mut n: usize = 0;
        while n < tx.outputs.len()
            invariant
                n <= tx.outputs@.len(),
                tx.outputs@.len() <= 0x1_0000_0000,
                tv.outputs == outputs_view(tx.outputs@),
                id == tv.txid.spec_compress(),
                pairs_view(r@) == before + tx_entries(tv, n as int),
            decreases tx.outputs@.len() - n,
        {
            let key = txo_key(id, n as u32);
            let value = txo_to_u8(&tx.outputs[n]);
            let ghost old_r = r@;
            r.push((key, value));
            n = n + 1;
            assert(pairs_view(r@) =~= pairs_view(old_r).push((key@, value@)));
            assert(pairs_view(r@) =~= before + tx_entries(tv, n as int));
        }
        t = t + 1;
        assert(txs.take(t as int).drop_last() =~= txs.take(t - 1));
        assert(tx_entries(tv, n as int) =~= tx_entries(tv, tv.outputs.len() as int));
    }
    assert(txs.take(t as int) =~= txs);
    r
}

} // verus!

verus! {

proof fn lemma_spent_keys_prefix(ins: Seq<OutPoint>, i: int)
    requires
        0 <= i <= ins.len(),
    ensures
        spent_keys(ins.take(i)).len() <= spent_keys(ins).len(),
    decreases ins.len() - i,
{
    if i < ins.len() {
        assert(ins.take(i + 1).drop_last() =~= ins.take(i));
        lemma_spent_keys_prefix(ins, i + 1);
    } else {
        assert(ins.take(i) =~= ins);
    }
}

proof fn lemma_block_keys_prefix(txs: Seq<RawTxV>, t: int)
    requires
        0 <= t <= txs.len(),
    ensures
        block_spent_keys(txs.take(t)).len() <= block_spent_keys(txs).len(),
    decreases txs.len() - t,
{
    if t < txs.len() {
        assert(txs.take(t + 1).drop_last() =~= txs.take(t));
        lemma_block_keys_prefix(txs, t + 1);
    } else {
        assert(txs.take(t) =~= txs);
    }
}

pub open spec fn pairs_keys(v: Seq<(u128, u32)>) -> Seq<OutKey> {
    v.map_values(|p: (u128, u32)| (p.0, p.1 as int))
}

/// The (compressed id, position) of every output that `block` spends, in
/// input order, coinbase inputs left out.
fn spent_key_pairs(block: &RawBlock) -> (r: Vec<(u128, u32)>)
    ensures
        pairs_keys(r@) == block_spent_keys(txs_view(block.txdata@)),
{
    let ghost txs = txs_view(block.txdata@);
    let mut r: Vec<(u128, u32)> = Vec::new();
    let mut t: usize = 0;
    while t < block.txdata.len()
        invariant
            t <= txs.len(),
            txs == txs_view(block.txdata@),
            txs.len() == block.txdata@.len(),
            pairs_keys(r@) == block_spent_keys(txs.take(t as int)),
        decreases txs.len() - t,
    {
        let tx = &block.txdata[t];
        let ghost ins = tx.inputs@;
        let ghost before = block_spent_keys(txs.take(t as int));
        assert(txs[t as int].inputs == ins);
        let mut i: usize = 0;
        while i < tx.inputs.len()
            invariant
                i <= ins.len(),
                ins == tx.inputs@,
                pairs_keys(r@) == before + spent_keys(ins.take(i as int)),
            decreases ins.len() - i,
        {
            let op = tx.inputs[i];
            assert(ins.take(i + 1).drop_last() =~= ins.take(i as int));
            assert(ins.take(i + 1).last() == op);
            if !op.is_null() {
                let ghost old_r = r@;
                r.push((op.txid.compress(), op.vout));
                assert(pairs_keys(r@) =~= pairs_keys(old_r).push(op.key()));
                assert(before + spent_keys(ins.take(i + 1)) =~= (before + spent_keys(
                    ins.take(i as int),
                )).push(op.key()));
            }
            i = i + 1;
        }
        t = t + 1;
        assert(ins.take(i as int) =~= ins);
        assert(txs.take(t as int).drop_last() =~= txs.take(t - 1));
    }
    assert(txs.take(t as int) =~= txs);
    r
}

/// Whether some key occurs twice in `v`.
fn has_repeated_key(v: &Vec<(u128, u32)>) -> (r: bool)
    ensures
        r == !pairs_keys(v@).no_duplicates(),
{
    let ghost keys = pairs_keys(v@);
    let mut i: usize = 0;
    while i < v.len()
        invariant
            i <= v@.len(),
            keys == pairs_keys(v@),
            forall|a: int, b: int| 0 <= a < b < i ==> keys[a] != keys[b],
        decreases v@.len() - i,
    {
        let mut j: usize = 0;
        while j < i
            invariant
                j <= i < v@.len(),
                keys == pairs_keys(v@),
                forall|a: int| 0 <= a < j ==> keys[a] != keys[i as int],
            decreases i - j,
        {
            if v[i].0 == v[j].0 && v[i].1 == v[j].1 {
                assert(keys[j as int] == keys[i as int]);
                return true;
            }
            j = j + 1;
        }
        i = i + 1;
    }
    assert forall|a: int, b: int| 0 <= a < keys.len() && 0 <= b < keys.len() && a != b implies keys[a]
        != keys[b] by {
        if a > b {
            assert(keys[b] != keys[a]);
        }
    }
    false
}

/// The keys of every output that `block` spends, in input order, coinbase
/// inputs left out.
pub fn block_spent_txo_keys(block: &RawBlock) -> (r: Vec<Vec<u8>>)
    ensures
        bytes_view(r@) == keys_bytes(block_spent_keys(txs_view(block.txdata@))),
{
    let pairs = spent_key_pairs(block);
    let mut r: Vec<Vec<u8>> = Vec::new();
    let mut k: usize = 0;
    while k < pairs.len()
        invariant
            k <= pairs@.len(),
            r@.len() == k,
            forall|j: int| 0 <= j < k ==> (#[trigger] r@[j])@ == txo_key_bytes(pairs@[j].0, pairs@[j].1),
        decreases pairs@.len() - k,
    {
        r.push(txo_key(pairs[k].0, pairs[k].1));
        k = k + 1;
    }
    assert(bytes_view(r@) =~= keys_bytes(pairs_keys(pairs@)));
    r
}

/// Decodes every value of `f` in turn; `None` where one is absent or does
/// not decode.
pub open spec fn decode_all(f: Seq<Option<Vec<u8>>>) -> Option<Seq<OutputV>>
    decreases f.len(),
{
    if f.len() == 0 {
        Some(Seq::empty())
    } else {
        match decode_all(f.drop_last()) {
            None => None,
            Some(os) => match f.last() {
                None => None,
                Some(b) => match decoded_txout(b@) {
                    None => None,
                    Some(o) => Some(os.push(o)),
                },
            },
        }
    }
}

/// `f` holds the canonical encoding of some output, short enough to decode.
pub open spec fn encodes_output(f: Option<Vec<u8>>) -> bool {
    &&& f is Some
    &&& f->Some_0@.len() <= MAX_DECODE_LEN
    &&& exists|o: OutputV| f->Some_0@ == txout_encoding(o)
}

/// The outputs in `flat` match every canonical encoding among the first
/// `n` values of `f`.
pub open spec fn matches_encodings(f: Seq<Option<Vec<u8>>>, flat: Seq<OutputV>, n: int) -> bool {
    forall|k: int, o: OutputV|
        #![trigger flat[k], txout_encoding(o)]
        0 <= k < n && f[k] is Some && f[k]->Some_0@ == txout_encoding(o) && f[k]->Some_0@.len()
            <= MAX_DECODE_LEN ==> flat[k] == o
}

/// Splits the spent outputs `flat` of `txs` into one list per transaction.
pub open spec fn group_inputs(txs: Seq<RawTxV>, flat: Seq<OutputV>) -> Seq<Seq<OutputV>>
    decreases txs.len(),
{
    if txs.len() == 0 {
        Seq::empty()
    } else {
        let m = flat.len() - spent_keys(txs.last().inputs).len();
        group_inputs(txs.drop_last(), flat.take(m)).push(flat.skip(m))
    }
}

proof fn lemma_decode_fail_extends(f: Seq<Option<Vec<u8>>>, i: int)
    requires
        0 <= i <= f.len(),
        decode_all(f.take(i)) is None,
    ensures
        decode_all(f) is None,
    decreases f.len() - i,
{
    if i < f.len() {
        assert(f.take(i + 1).drop_last() =~= f.take(i));
        lemma_decode_fail_extends(f, i + 1);
    } else {
        assert(f.take(i) =~= f);
    }
}

/// Connects `block` from the stored values `fetched` read back for its
/// spent keys (as `block_spent_txo_keys` lists them; `None` where the read
/// found nothing or failed). A block that spends one output twice fails,
/// as does one with a value that is absent or does not decode.
pub fn connect_fetched(block: &RawBlock, fetched: &Vec<Option<Vec<u8>>>) -> (r: Result<
    ConnectedBlock,
    ConnectError,
>)
    requires
        fetched@.len() == block_spent_keys(txs_view(block.txdata@)).len(),
    ensures
        !block_spent_keys(txs_view(block.txdata@)).no_duplicates() ==> r == Err::<
            ConnectedBlock,
            ConnectError,
        >(ConnectError::MissingOutput),
        block_spent_keys(txs_view(block.txdata@)).no_duplicates() ==> match decode_all(fetched@) {
            None => r == Err::<ConnectedBlock, ConnectError>(ConnectError::MissingOutput),
            Some(flat) => r is Ok && is_connected(
                block,
                group_inputs(txs_view(block.txdata@), flat),
                &r->Ok_0,
            ),
        },
        block_spent_keys(txs_view(block.txdata@)).no_duplicates() && (forall|k: int|
            0 <= k < fetched@.len() ==> encodes_output(#[trigger] fetched@[k])) ==> {
            &&& r is Ok
            &&& decode_all(fetched@) is Some
            &&& forall|k: int, o: OutputV|
                #![trigger decode_all(fetched@)->Some_0[k], txout_encoding(o)]
                0 <= k < fetched@.len() && fetched@[k]->Some_0@ == txout_encoding(o)
                    ==> decode_all(fetched@)->Some_0[k] == o
        },
{
    let ghost txs = txs_view(block.txdata@);
    let pairs = spent_key_pairs(block);
    if has_repeated_key(&pairs) {
        return Err(ConnectError::MissingOutput);
    }
    let ghost mut flat: Seq<OutputV> = Seq::empty();
    let mut out_txs: Vec<ConnectedTx> = Vec::new();
    let total = fetched.len();
    let mut pos: usize = 0;
    let mut t: usize = 0;
    while t < block.txdata.len()
        invariant
            t <= txs.len(),
            txs == txs_view(block.txdata@),
            txs.len() == block.txdata@.len(),
            fetched@.len() == block_spent_keys(txs).len(),
            total == fetched@.len(),
            pos == block_spent_keys(txs.take(t as int)).len(),
            decode_all(fetched@.take(pos as int)) == Some(flat),
            flat.len() == pos,
            matches_encodings(fetched@, flat, pos as int),
            out_txs@.len() == t,
            group_inputs(txs.take(t as int), flat).len() == t,
            forall|j: int|
                0 <= j < t ==> #[trigger] ctxs_view(out_txs@)[j] == (ConnectedTxV {
                    txid: txs[j].txid,
                    inputs: group_inputs(txs.take(t as int), flat)[j],
                    outputs: txs[j].outputs,
                }),
        decreases txs.len() - t,
    {
        let tx = &block.txdata[t];
        let ghost ins = tx.inputs@;
        let ghost pos0 = pos as int;
        let ghost flat0 = flat;
        assert(txs[t as int].inputs == ins);
        assert(txs.take(t + 1).drop_last() =~= txs.take(t as int));
        proof {
            lemma_block_keys_prefix(txs, t + 1);
        }
        let mut resolved: Vec<TxOutput> = Vec::new();
        let mut i: usize = 0;
        while i < tx.inputs.len()
            invariant
                i <= ins.len(),
                ins == tx.inputs@,
                pos0 + spent_keys(ins).len() <= fetched@.len(),
                total == fetched@.len(),
                pos == pos0 + spent_keys(ins.take(i as int)).len(),
                decode_all(fetched@.take(pos as int)) == Some(flat0 + outputs_view(resolved@)),
                resolved@.len() == spent_keys(ins.take(i as int)).len(),
                flat0.len() == pos0,
                matches_encodings(fetched@, flat0 + outputs_view(resolved@), pos as int),
            decreases ins.len() - i,
        {
            let op = tx.inputs[i];
            assert(ins.take(i + 1).drop_last() =~= ins.take(i as int));
            assert(ins.take(i + 1).last() == op);
            proof {
                lemma_spent_keys_prefix(ins, i + 1);
            }
            if !op.is_null() {
                let decoded = match &fetched[pos] {
                    Some(bytes) => txo_from_u8(bytes.as_slice()),
                    None => None,
                };
                assert(fetched@.take(pos + 1).drop_last() =~= fetched@.take(pos as int));
                match decoded {
                    Some(o) => {
                        let ghost before = outputs_view(resolved@);
                        resolved.push(o);
                        assert(outputs_view(resolved@) =~= before.push(o@));
                        assert(flat0 + outputs_view(resolved@) =~= (flat0 + before).push(o@));
                        pos = pos + 1;
                        proof {
                            let nf = flat0 + outputs_view(resolved@);
                            assert forall|k: int, o2: OutputV|
                                #![trigger nf[k], txout_encoding(o2)]
                                0 <= k < pos && fetched@[k] is Some && fetched@[k]->Some_0@
                                    == txout_encoding(o2) && fetched@[k]->Some_0@.len()
                                    <= MAX_DECODE_LEN implies nf[k] == o2 by {
                                if k < pos - 1 {
                                    assert(nf[k] == (flat0 + before)[k]);
                                }
                            }
                        }
                    },
                    None => {
                        proof {
                            lemma_decode_fail_extends(fetched@, pos + 1);
                            if forall|k: int|
                                0 <= k < fetched@.len() ==> encodes_output(#[trigger] fetched@[k]) {
                                assert(encodes_output(fetched@[pos as int]));
                                let bytes = fetched@[pos as int]->Some_0@;
                                let o2 = choose|o2: OutputV| bytes == txout_encoding(o2);
                                assert(bytes == txout_encoding(o2));
                            }
                        }
                        return Err(ConnectError::MissingOutput);
                    },
                }
            }
            i = i + 1;
        }
        assert(ins.take(i as int) =~= ins);
        let ghost outs = outputs_view(resolved@);
        let outputs = copy_outputs(&tx.outputs);
        let ghost old_out = out_txs@;
        out_txs.push(ConnectedTx { txid: tx.txid, inputs: resolved, outputs });
        proof {
            let new_flat = flat0 + outs;
            let m = new_flat.len() - spent_keys(ins).len();
            assert(new_flat.take(m) =~= flat0);
            assert(new_flat.skip(m) =~= outs);
            assert(txs.take(t + 1).last() == txs[t as int]);
            assert(group_inputs(txs.take(t + 1), new_flat) == group_inputs(
                txs.take(t as int),
                flat0,
            ).push(outs));
            flat = new_flat;
            assert(txs[t as int].outputs == outputs_view(tx.outputs@));
            assert forall|j: int| 0 <= j < t + 1 implies #[trigger] ctxs_view(out_txs@)[j] == (
            ConnectedTxV {
                txid: txs[j].txid,
                inputs: group_inputs(txs.take(t + 1), flat)[j],
                outputs: txs[j].outputs,
            }) by {
                if j < t {
                    assert(out_txs@[j] == old_out[j]);
                    assert(ctxs_view(old_out)[j] == old_out[j]@);
                }
            }
        }
        t = t + 1;
    }
    assert(txs.take(t as int) =~= txs);
    assert(fetched@.take(pos as int) =~= fetched@);
    assert(pairs_keys(pairs@).no_duplicates());
    Ok(ConnectedBlock { hash: block.hash, txdata: out_txs })
}

} // verus!
