//! The accumulator for one namespace: batches of key/value diffs merge into
//! a running set, last write winning on duplicate keys within and across
//! batches, and a snapshot of the full set feeds the trie.

use vstd::prelude::*;
use crate::felt::Felt;
use crate::trie::pairs_map;

verus! {

/// The running key/value set of one namespace, as the ordered log of its
/// writes; its meaning is the map where later writes supersede earlier
/// ones.
pub struct Accumulator {
    pub(crate) pairs: Vec<(Felt, Felt)>,
}

impl Accumulator {
    pub closed spec fn wf(self) -> bool {
        forall|i: int| 0 <= i < self.pairs@.len()
            ==> (#[trigger] self.pairs@[i]).0.wf() && self.pairs@[i].1.wf()
    }

    /// The accumulated contents.
    pub closed spec fn contents(self) -> Map<nat, nat> {
        pairs_map(self.pairs@)
    }

    pub fn new() -> (a: Accumulator)
        ensures
            a.wf(),
            a.contents() == Map::<nat, nat>::empty(),
    {
        Accumulator { pairs: Vec::new() }
    }

    /// Merges a batch: each pair of the batch in order overrides whatever
    /// the running set held for its key.
    pub fn extend(&mut self, batch: &Vec<(Felt, Felt)>)
        requires
            old(self).wf(),
            forall|i: int| 0 <= i < batch@.len()
                ==> (#[trigger] batch@[i]).0.wf() && batch@[i].1.wf(),
        ensures
            final(self).wf(),
            final(self).contents()
                == old(self).contents().union_prefer_right(pairs_map(batch@)),
    {
        let n = batch.len();
        let mut i: usize = 0;
        let ghost p0 = self.pairs@;
        while i < n
            invariant
                n == batch@.len(),
                i <= n,
                forall|j: int| 0 <= j < batch@.len()
                    ==> (#[trigger] batch@[j]).0.wf() && batch@[j].1.wf(),
                forall|j: int| 0 <= j < self.pairs@.len()
                    ==> (#[trigger] self.pairs@[j]).0.wf() && self.pairs@[j].1.wf(),
                pairs_map(self.pairs@)
                    == pairs_map(p0).union_prefer_right(pairs_map(batch@.take(i as int))),
            decreases n - i,
        {
            let p = &batch[i];
            let kc = p.0.clone();
            let vc = p.1.clone();
            let ghost pcur = self.pairs@;
            self.pairs.push((kc, vc));
            proof {
                assert(self.pairs@.drop_last() =~= pcur);
                assert(batch@.take(i + 1).drop_last() =~= batch@.take(i as int));
                assert(batch@.take(i + 1).last() == batch@[i as int]);
                assert(pairs_map(self.pairs@) == pairs_map(pcur).insert(kc.val(), vc.val()));
                assert(pairs_map(p0).union_prefer_right(pairs_map(batch@.take(i + 1)))
                    =~= pairs_map(p0).union_prefer_right(pairs_map(batch@.take(i as int)))
                        .insert(batch@[i as int].0.val(), batch@[i as int].1.val()));
            }
            i = i + 1;
        }
        proof {
            assert(batch@.take(n as int) =~= batch@);
        }
    }

    /// The current full set, ready to feed the trie; its meaning is
    /// exactly the accumulated contents.
    pub fn snapshot(&self) -> (r: Vec<(Felt, Felt)>)
        requires
            self.wf(),
        ensures
            forall|i: int| 0 <= i < r@.len() ==> (#[trigger] r@[i]).0.wf() && r@[i].1.wf(),
            pairs_map(r@) == self.contents(),
    {
        let n = self.pairs.len();
        let mut r: Vec<(Felt, Felt)> = Vec::new();
        let mut i: usize = 0;
        while i < n
            invariant
                n == self.pairs@.len(),
                self.wf(),
                i <= n,
                r@.len() == i,
                forall|j: int| 0 <= j < i ==> (#[trigger] r@[j]).0.wf() && r@[j].1.wf(),
                forall|j: int| 0 <= j < i ==> (#[trigger] r@[j]).0.val() == self.pairs@[j].0.val()
                    && r@[j].1.val() == self.pairs@[j].1.val(),
                pairs_map(r@) == pairs_map(self.pairs@.take(i as int)),
            decreases n - i,
        {
            let p = &self.pairs[i];
            let kc = p.0.clone();
            let vc = p.1.clone();
            let ghost rcur = r@;
            r.push((kc, vc));
            proof {
                assert(r@.drop_last() =~= rcur);
                assert(self.pairs@.take(i + 1).drop_last() =~= self.pairs@.take(i as int));
                assert(self.pairs@.take(i + 1).last() == self.pairs@[i as int]);
            }
            i = i + 1;
        }
        proof {
            assert(self.pairs@.take(n as int) =~= self.pairs@);
        }
        r
    }
}

} // verus!
