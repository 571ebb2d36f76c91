//! The in-memory cache of unspent outputs.
//!
//! Each transaction with outputs left to spend has one entry: its slots,
//! one per output, of which the spent ones are empty. An entry whose last
//! slot is spent is removed at once.
use std::collections::HashMap;
use vstd::prelude::*;
use crate::model::{OutKey, OutputV, TxOutput, outputs_view};

verus! {

broadcast use vstd::std_specs::hash::group_hash_axioms;

/// The cache after the outputs `outs` of the transaction with compressed
/// id `id` are recorded: they replace whatever was recorded under that id.
pub open spec fn insert_outputs(u: Map<OutKey, OutputV>, id: u128, outs: Seq<OutputV>) -> Map<
    OutKey,
    OutputV,
> {
    Map::new(
        |k: OutKey|
            if k.0 == id {
                0 <= k.1 < outs.len()
            } else {
                u.contains_key(k)
            },
        |k: OutKey|
            if k.0 == id {
                outs[k.1]
            } else {
                u[k]
            },
    )
}

pub open spec fn is_live(e: Map<u128, Vec<Option<TxOutput>>>, k: OutKey) -> bool {
    &&& e.contains_key(k.0)
    &&& 0 <= k.1 < e[k.0]@.len()
    &&& e[k.0]@[k.1] is Some
}

pub open spec fn has_live(slots: Seq<Option<TxOutput>>) -> bool {
    exists|i: int| 0 <= i < slots.len() && #[trigger] slots[i] is Some
}

/// Unspent outputs, keyed by compressed transaction id.
pub struct UnspentCache {
    entries: HashMap<u128, Vec<Option<TxOutput>>>,
}

impl View for UnspentCache {
    /// Every unspent output by (compressed id, position).
    type V = Map<OutKey, OutputV>;

    closed spec fn view(&self) -> Map<OutKey, OutputV> {
        Map::new(
            |k: OutKey| is_live(self.entries@, k),
            |k: OutKey| self.entries@[k.0]@[k.1]->Some_0@,
        )
    }
}

/// Whether every slot is empty.
fn all_spent(slots: &Vec<Option<TxOutput>>) -> (r: bool)
    ensures
        r == (forall|i: int| 0 <= i < slots@.len() ==> #[trigger] slots@[i] is None),
{
    let mut i: usize = 0;
    while i < slots.len()
        invariant
            i <= slots@.len(),
            forall|j: int| 0 <= j < i ==> #[trigger] slots@[j] is None,
        decreases slots@.len() - i,
    {
        if slots[i].is_some() {
            return false;
        }
        i = i + 1;
    }
    true
}

impl UnspentCache {
    /// No entry is left without an unspent slot.
    pub closed spec fn wf(&self) -> bool {
        forall|id: u128| #[trigger] self.entries@.contains_key(id) ==> has_live(self.entries@[id]@)
    }

    pub fn new() -> (r: UnspentCache)
        ensures
            r.wf(),
            r@ == Map::<OutKey, OutputV>::empty(),
    {
        let r = UnspentCache { entries: HashMap::new() };
        assert(r@ =~= Map::<OutKey, OutputV>::empty());
        r
    }

    /// Whether the output at position `n` of transaction `id` is unspent.
    pub fn contains(&self, id: u128, n: u32) -> (r: bool)
        requires
            self.wf(),
        ensures
            r == self@.contains_key((id, n as int)),
    {
        match self.entries.get(&id) {
            None => false,
            Some(slots) => (n as usize) < slots.len() && slots[n as usize].is_some(),
        }
    }

    /// Whether no output is unspent.
    pub fn is_empty(&self) -> (r: bool)
        requires
            self.wf(),
        ensures
            r == (self@ == Map::<OutKey, OutputV>::empty()),
    {
        let r = self.entries.is_empty();
        proof {
            if r {
                assert(self.entries@ =~= Map::empty());
                assert(self@ =~= Map::<OutKey, OutputV>::empty());
            } else {
                let id = choose|id: u128| self.entries@.contains_key(id);
                assert(has_live(self.entries@[id]@));
                let i = choose|i: int|
                    0 <= i < self.entries@[id]@.len() && #[trigger] self.entries@[id]@[i] is Some;
                assert(self@.contains_key((id, i)));
            }
        }
        r
    }

    /// Records the outputs of the transaction with compressed id `id`.
    pub fn insert_tx(&mut self, id: u128, outs: &Vec<TxOutput>)
        requires
            old(self).wf(),
        ensures
            final(self).wf(),
            final(self)@ == insert_outputs(old(self)@, id, outputs_view(outs@)),
    {
        let mut slots: Vec<Option<TxOutput>> = Vec::new();
        let mut i: usize = 0;
        while i < outs.len()
            invariant
                i <= outs@.len(),
                slots@.len() == i,
                forall|j: int|
                    0 <= j < i ==> (#[trigger] slots@[j]) is Some && slots@[j]->Some_0@
                        == outs@[j]@,
            decreases outs@.len() - i,
        {
            slots.push(Some(outs[i].duplicate()));
            i = i + 1;
        }
        let ghost old_entries = self.entries@;
        if outs.len() == 0 {
            self.entries.remove(&id);
        } else {
            self.entries.insert(id, slots);
            assert(self.entries@[id]@[0] is Some);
        }
        assert forall|x: u128| #[trigger] self.entries@.contains_key(x) implies has_live(
            self.entries@[x]@,
        ) by {
            if x != id {
                assert(old_entries.contains_key(x));
            }
        }
        assert(self@ =~= insert_outputs(old(self)@, id, outputs_view(outs@)));
    }

    /// Spends the output at position `n` of transaction `id`: it is taken
    /// out and handed back, or `None` comes back where it is not unspent.
    pub fn remove_slot(&mut self, id: u128, n: u32) -> (r: Option<TxOutput>)
        requires
            old(self).wf(),
        ensures
            final(self).wf(),
            old(self)@.contains_key((id, n as int)) ==> r is Some && r->Some_0@ == old(self)@[(
                id,
                n as int,
            )] && final(self)@ == old(self)@.remove((id, n as int)),
            !old(self)@.contains_key((id, n as int)) ==> r is None && final(self)@ == old(self)@,
    {
        let ghost k: OutKey = (id, n as int);
        match self.entries.remove(&id) {
            None => {
                assert(self.entries@ =~= old(self).entries@);
                assert(self@ =~= old(self)@);
                None
            },
            Some(mut slots) => {
                let ghost old_slots = slots@;
                let idx = n as usize;
                if idx < slots.len() {
                    let taken = slots.remove(idx);
                    slots.insert(idx, None);
                    assert(slots@ =~= old_slots.update(idx as int, None));
                    if all_spent(&slots) {
                        proof {
                            assert forall|j: int| 0 <= j < old_slots.len() && j != idx implies #[trigger] old_slots[j] is None by {
                                assert(slots@[j] is None);
                            }
                        }
                    } else {
                        self.entries.insert(id, slots);
                    }
                    assert forall|x: u128| #[trigger] self.entries@.contains_key(x) implies has_live(
                        self.entries@[x]@,
                    ) by {
                        if x != id {
                            assert(old(self).entries@.contains_key(x));
                        }
                    }
                    assert(self@ =~= if taken is Some {
                        old(self)@.remove(k)
                    } else {
                        old(self)@
                    });
                    taken
                } else {
                    self.entries.insert(id, slots);
                    assert(self.entries@ =~= old(self).entries@);
                    assert(self@ =~= old(self)@);
                    None
                }
            },
        }
    }
}

} // verus!
