//! The ordering core of the parallel pipeline: results that workers deliver
//! out of order, each with its position, are released strictly by position.
use std::collections::HashMap;
use vstd::prelude::*;

verus! {

broadcast use vstd::std_specs::hash::group_hash_axioms;

/// Holds early results until every earlier position has been released.
pub struct ReorderBuffer<T> {
    next: usize,
    pending: HashMap<usize, T>,
    delivered: Ghost<Map<usize, T>>,
    released: Ghost<Seq<T>>,
}

impl<T> ReorderBuffer<T> {
    /// The position to be released next.
    pub closed spec fn next_pos(&self) -> nat {
        self.next as nat
    }

    /// Results delivered and not yet released, by position.
    pub closed spec fn pending(&self) -> Map<usize, T> {
        self.pending@
    }

    /// Every result delivered so far, by position.
    pub closed spec fn delivered(&self) -> Map<usize, T> {
        self.delivered@
    }

    /// The results released so far, in order of release.
    pub closed spec fn released(&self) -> Seq<T> {
        self.released@
    }

    pub closed spec fn wf(&self) -> bool {
        &&& self.released@ == Seq::new(self.next as nat, |i: int| self.delivered@[i as usize])
        &&& forall|p: usize| p < self.next ==> #[trigger] self.delivered@.contains_key(p)
        &&& forall|p: usize|
            #[trigger] self.pending@.contains_key(p) <==> (self.delivered@.contains_key(p) && p
                >= self.next)
        &&& forall|p: usize|
            #[trigger] self.pending@.contains_key(p) ==> self.pending@[p] == self.delivered@[p]
    }

    pub fn new() -> (r: ReorderBuffer<T>)
        ensures
            r.wf(),
            r.next_pos() == 0,
            r.pending() == Map::<usize, T>::empty(),
            r.delivered() == Map::<usize, T>::empty(),
    {
        let r = ReorderBuffer {
            next: 0,
            pending: HashMap::new(),
            delivered: Ghost(Map::empty()),
            released: Ghost(Seq::empty()),
        };
        assert(r.released@ =~= Seq::new(0, |i: int| r.delivered@[i as usize]));
        assert(r.pending@ =~= Map::<usize, T>::empty());
        r
    }

    pub fn next_position(&self) -> (r: usize)
        ensures
            r == self.next_pos(),
    {
        self.next
    }

    /// Takes the result for position `pos`, which was not delivered before.
    pub fn deliver(&mut self, pos: usize, item: T)
        requires
            old(self).wf(),
            !old(self).delivered().contains_key(pos),
        ensures
            final(self).wf(),
            final(self).next_pos() == old(self).next_pos(),
            final(self).delivered() == old(self).delivered().insert(pos, item),
            final(self).released() == old(self).released(),
            pos >= old(self).next_pos() ==> final(self).pending() == old(self).pending().insert(
                pos,
                item,
            ),
    {
        proof {
            self.delivered@ = self.delivered@.insert(pos, item);
        }
        if pos >= self.next {
            self.pending.insert(pos, item);
        }
        assert forall|p: usize| p < self.next implies #[trigger] self.delivered@.contains_key(p) by {
            assert(old(self).delivered@.contains_key(p));
        }
        assert(self.released@ =~= Seq::new(self.next as nat, |i: int| self.delivered@[i as usize]));
        assert forall|p: usize| #[trigger] self.pending@.contains_key(p) <==> (
        self.delivered@.contains_key(p) && p >= self.next) by {
            assert(old(self).pending@.contains_key(p) <==> (old(self).delivered@.contains_key(p)
                && p >= self.next));
        }
        assert forall|p: usize| #[trigger] self.pending@.contains_key(p) implies self.pending@[p]
            == self.delivered@[p] by {
            if p != pos {
                assert(old(self).pending@.contains_key(p));
            }
        }
    }

    /// Releases the result at the next position, where it has arrived.
    pub fn pop_ready(&mut self) -> (r: Option<T>)
        requires
            old(self).wf(),
            old(self).next_pos() < usize::MAX,
        ensures
            final(self).wf(),
            final(self).delivered() == old(self).delivered(),
            old(self).pending().contains_key(old(self).next_pos() as usize) ==> {
                &&& r == Some(old(self).pending()[old(self).next_pos() as usize])
                &&& final(self).next_pos() == old(self).next_pos() + 1
                &&& final(self).pending() == old(self).pending().remove(
                    old(self).next_pos() as usize,
                )
                &&& final(self).released() == old(self).released().push(r->Some_0)
            },
            !old(self).pending().contains_key(old(self).next_pos() as usize) ==> {
                &&& r is None
                &&& final(self).next_pos() == old(self).next_pos()
                &&& final(self).pending() == old(self).pending()
                &&& final(self).released() == old(self).released()
            },
    {
        let r = self.pending.remove(&self.next);
        match r {
            Some(item) => {
                proof {
                    self.released@ = self.released@.push(item);
                }
                self.next = self.next + 1;
                assert forall|p: usize| p < self.next implies #[trigger] self.delivered@.contains_key(
                    p,
                ) by {
                    if p < old(self).next {
                        assert(old(self).delivered@.contains_key(p));
                    } else {
                        assert(old(self).pending@.contains_key(p));
                    }
                }
                assert(self.released@ =~= Seq::new(
                    self.next as nat,
                    |i: int| self.delivered@[i as usize],
                ));
                assert forall|p: usize| #[trigger] self.pending@.contains_key(p) <==> (
                self.delivered@.contains_key(p) && p >= self.next) by {
                    assert(old(self).pending@.contains_key(p) <==> (
                    old(self).delivered@.contains_key(p) && p >= old(self).next));
                }
                assert forall|p: usize| #[trigger] self.pending@.contains_key(p) implies self.pending@[p]
                    == self.delivered@[p] by {
                    assert(old(self).pending@.contains_key(p));
                }
                Some(item)
            },
            None => {
                assert(self.pending@ =~= old(self).pending@);
                None
            },
        }
    }
}

/// Whatever the order in which results arrive, the results released are
/// the delivered results of positions `0, 1, 2, ...` in that order: two
/// buffers given the same results release the same sequence.
pub proof fn lemma_release_order_independent<T>(a: ReorderBuffer<T>, b: ReorderBuffer<T>)
    requires
        a.wf(),
        b.wf(),
        a.next_pos() == b.next_pos(),
        a.delivered() == b.delivered(),
    ensures
        a.released() == Seq::new(a.next_pos(), |i: int| a.delivered()[i as usize]),
        a.released() == b.released(),
{
    assert(a.released() =~= Seq::new(a.next_pos(), |i: int| a.delivered()[i as usize]));
    assert(a.released() =~= b.released());
}

} // verus!
