//! The batches that are being worked on, by the epoch they start at.
use std::collections::BTreeMap;

use vstd::prelude::*;
use vstd::std_specs::iter::IteratorSpec;

use crate::batch::BatchInfo;
use crate::batch::BatchState;
use crate::batch::BatchView;
use crate::order::{
    ascending, is_ascending, lemma_ascending_is, lemma_filter_ascending, lemma_filter_step,
    lemma_increasing_is_ascending,
};
use crate::types::BatchId;

verus! {

/// Batches in the order of the epochs they start at.
#[derive(Debug)]
pub struct Batches {
    map: BTreeMap<BatchId, BatchInfo>,
}

impl View for Batches {
    type V = Map<BatchId, BatchView>;

    closed spec fn view(&self) -> Map<BatchId, BatchView> {
        self.map@.map_values(|batch: BatchInfo| batch@)
    }
}

/// The ids of the batches in ascending order.
pub open spec fn ids_of(batches: Map<BatchId, BatchView>) -> Seq<BatchId> {
    ascending(batches.dom())
}

/// The number of batches that are downloading, or downloaded and not processed.
pub open spec fn buffered(batches: Map<BatchId, BatchView>) -> nat {
    ids_of(batches).filter(|id: BatchId| batches[id].is_in_buffer()).len()
}

impl Batches {
    /// No batches.
    pub fn new() -> (batches: Self)
        ensures
            batches@ == Map::<BatchId, BatchView>::empty(),
    {
        let batches = Batches { map: BTreeMap::new() };
        assert(batches@ =~= Map::<BatchId, BatchView>::empty());
        batches
    }

    /// The number of batches.
    pub fn len(&self) -> (count: usize)
        ensures
            count == self@.dom().len(),
    {
        assert(self@.dom() =~= self.map@.dom());
        self.map.len()
    }

    /// Whether there is a batch of this id.
    pub fn contains(&self, id: BatchId) -> (found: bool)
        ensures
            found == self@.contains_key(id),
    {
        self.map.contains_key(&id)
    }

    /// The batch of this id.
    pub fn get(&self, id: BatchId) -> (batch: Option<&BatchInfo>)
        ensures
            match batch {
                Some(batch) => self@.contains_key(id) && batch@ == self@[id],
                None => !self@.contains_key(id),
            },
    {
        self.map.get(&id)
    }

    /// Takes the batch of this id out.
    pub fn remove(&mut self, id: BatchId) -> (batch: Option<BatchInfo>)
        ensures
            final(self)@ == old(self)@.remove(id),
            match batch {
                Some(batch) => old(self)@.contains_key(id) && batch@ == old(self)@[id],
                None => !old(self)@.contains_key(id),
            },
    {
        let batch = self.map.remove(&id);
        assert(self@ =~= old(self)@.remove(id));
        batch
    }

    /// Puts a batch in.
    pub fn insert(&mut self, id: BatchId, batch: BatchInfo)
        ensures
            final(self)@ == old(self)@.insert(id, batch@),
    {
        self.map.insert(id, batch);
        assert(self@ =~= old(self)@.insert(id, batch@));
    }

    /// Takes all batches out.
    pub fn clear(&mut self)
        ensures
            final(self)@ == Map::<BatchId, BatchView>::empty(),
    {
        self.map.clear();
        assert(self@ =~= Map::<BatchId, BatchView>::empty());
    }

    /// The ids of the batches in ascending order.
    pub fn ids(&self) -> (ids: Vec<BatchId>)
        ensures
            ids@ == ids_of(self@),
            is_ascending(ids@),
            ids@.to_set() == self@.dom(),
            self@.dom().finite(),
    {
        let mut ids: Vec<BatchId> = Vec::new();
        let ghost key = |entry: (&BatchId, &BatchInfo)| *entry.0;
        let entries = self.map.iter();
        let ghost pairs = entries.remaining();
        let ghost keys = pairs.map_values(key);
        for entry in it: entries
            invariant
                key == (|entry: (&BatchId, &BatchInfo)| *entry.0),
                keys == it.seq().map_values(key),
                ids@ == keys.take(it.index() as int),
        {
            ids.push(*entry.0);
            assert(ids@ =~= keys.take(it.index() + 1));
        }
        proof {
            assert(ids@ =~= keys);
            lemma_increasing_is_ascending(keys);
            assert(self@.dom() =~= self.map@.dom());
            assert forall|id: BatchId| ids@.contains(id) <==> self.map@.contains_key(id) by {
                if self.map@.contains_key(id) {
                    let entry = (&id, &self.map@[id]);
                    assert(pairs.contains(entry));
                    let i = choose|i: int| 0 <= i < pairs.len() && pairs[i] == entry;
                    assert(keys[i] == id);
                }
                if keys.contains(id) {
                    let i = choose|i: int| 0 <= i < keys.len() && keys[i] == id;
                    assert(self.map@.contains_key(*pairs[i].0));
                }
            }
            assert(ids@.to_set() =~= self@.dom());
            lemma_ascending_is(ids@);
        }
        ids
    }

    /// The ids for which `keep` says so, in ascending order; `pick` is what it says.
    pub fn select<F: Fn(BatchId) -> bool>(
        &self,
        keep: F,
        Ghost(pick): Ghost<spec_fn(BatchId) -> bool>,
    ) -> (picked: Vec<BatchId>)
        requires
            forall|id: BatchId| self@.contains_key(id) ==> #[trigger] keep.requires((id,)),
            forall|id: BatchId, kept: bool|
                self@.contains_key(id) && #[trigger] keep.ensures((id,), kept) ==> kept == pick(id),
        ensures
            picked@ == ids_of(self@).filter(pick),
            is_ascending(picked@),
            forall|id: BatchId| #[trigger]
                picked@.contains(id) <==> self@.contains_key(id) && pick(id),
            self@.dom().finite(),
    {
        let ids = self.ids();
        let mut picked: Vec<BatchId> = Vec::new();
        let mut i: usize = 0;
        assert(picked@ =~= ids@.take(0).filter(pick)) by {
            reveal(Seq::filter);
        }
        while i < ids.len()
            invariant
                i <= ids@.len(),
                ids@.to_set() == self@.dom(),
                forall|id: BatchId| self@.contains_key(id) ==> #[trigger] keep.requires((id,)),
                forall|id: BatchId, kept: bool|
                    self@.contains_key(id) && #[trigger] keep.ensures((id,), kept) ==> kept == pick(
                        id,
                    ),
                picked@ == ids@.take(i as int).filter(pick),
            decreases ids@.len() - i,
        {
            let id: BatchId = ids[i];
            proof {
                lemma_filter_step(ids@, pick, i as int);
                assert(ids@.to_set().contains(id));
            }
            if keep(id) {
                picked.push(id);
            }
            i = i + 1;
        }
        proof {
            assert(ids@.take(i as int) =~= ids@);
            lemma_filter_ascending(ids@, pick);
            assert forall|id: BatchId| ids@.contains(id) <==> self@.contains_key(id) by {
                assert(ids@.to_set().contains(id) <==> self@.dom().contains(id));
            }
        }
        picked
    }

    /// The number of batches that are downloading, or downloaded and not processed.
    pub fn buffered(&self) -> (count: usize)
        ensures
            count == buffered(self@),
    {
        let in_buffer = |id: BatchId| -> (found: bool)
            ensures
                self@.contains_key(id) ==> found == self@[id].is_in_buffer(),
            {
                match self.get(id) {
                    Some(batch) => matches!(
                        batch.state(),
                        BatchState::Downloading(..) | BatchState::AwaitingProcessing(..)
                    ),
                    None => false,
                }
            };
        self.select(in_buffer, Ghost(|id: BatchId| self@[id].is_in_buffer())).len()
    }

}

} // verus!
