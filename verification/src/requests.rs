//! Which batches each peer has been asked for.
use std::collections::{HashMap, HashSet};

use vstd::prelude::*;

use crate::types::{BatchId, PeerId};

verus! {

/// List of peers we are currently awaiting a response for, each with the batches it is to send.
#[derive(Debug)]
pub struct ActiveRequests {
    map: HashMap<PeerId, HashSet<BatchId>>,
}

impl View for ActiveRequests {
    type V = Map<PeerId, Set<BatchId>>;

    closed spec fn view(&self) -> Map<PeerId, Set<BatchId>> {
        self.map@.map_values(|ids: HashSet<BatchId>| ids@)
    }
}

/// Whether the batch is to come from the peer.
pub open spec fn is_requested(
    requests: Map<PeerId, Set<BatchId>>,
    peer: PeerId,
    id: BatchId,
) -> bool {
    requests.contains_key(peer) && requests[peer].contains(id)
}

/// The number of batches that are to come from the peer.
pub open spec fn load(requests: Map<PeerId, Set<BatchId>>, peer: PeerId) -> nat {
    if requests.contains_key(peer) {
        requests[peer].len()
    } else {
        0
    }
}

/// The requests with one more.
pub open spec fn registered(
    requests: Map<PeerId, Set<BatchId>>,
    peer: PeerId,
    id: BatchId,
) -> Map<PeerId, Set<BatchId>> {
    if requests.contains_key(peer) {
        requests.insert(peer, requests[peer].insert(id))
    } else {
        requests.insert(peer, set![id])
    }
}

/// The requests without one of them.
pub open spec fn unregistered(
    requests: Map<PeerId, Set<BatchId>>,
    peer: PeerId,
    id: BatchId,
) -> Map<PeerId, Set<BatchId>> {
    if requests.contains_key(peer) {
        requests.insert(peer, requests[peer].remove(id))
    } else {
        requests
    }
}

impl ActiveRequests {
    /// No requests.
    pub fn new() -> (requests: Self)
        ensures
            requests@ == Map::<PeerId, Set<BatchId>>::empty(),
    {
        let requests = ActiveRequests { map: HashMap::new() };
        assert(requests@ =~= Map::<PeerId, Set<BatchId>>::empty());
        requests
    }

    /// Whether the batch is to come from the peer.
    pub fn contains(&self, peer: PeerId, id: BatchId) -> (found: bool)
        ensures
            found == is_requested(self@, peer, id),
    {
        match self.map.get(&peer) {
            Some(ids) => ids.contains(&id),
            None => false,
        }
    }

    /// The number of batches that are to come from the peer.
    pub fn load(&self, peer: PeerId) -> (count: usize)
        ensures
            count == load(self@, peer),
    {
        match self.map.get(&peer) {
            Some(ids) => ids.len(),
            None => 0,
        }
    }

    /// Registers that the batch is to come from the peer.
    pub fn register(&mut self, peer: PeerId, id: BatchId)
        ensures
            final(self)@ == registered(old(self)@, peer, id),
    {
        let mut ids = match self.map.remove(&peer) {
            Some(ids) => ids,
            None => HashSet::new(),
        };
        ids.insert(id);
        self.map.insert(peer, ids);
        assert(self@ =~= registered(old(self)@, peer, id));
    }

    /// The batch is not to come from the peer any more.
    pub fn unregister(&mut self, peer: PeerId, id: BatchId)
        ensures
            final(self)@ == unregistered(old(self)@, peer, id),
    {
        if let Some(mut ids) = self.map.remove(&peer) {
            ids.remove(&id);
            self.map.insert(peer, ids);
        }
        assert(self@ =~= unregistered(old(self)@, peer, id));
    }

    /// Nothing is to come from the peer any more.
    pub fn remove(&mut self, peer: PeerId)
        ensures
            final(self)@ == old(self)@.remove(peer),
    {
        self.map.remove(&peer);
        assert(self@ =~= old(self)@.remove(peer));
    }

    /// Nothing is to come from any peer any more.
    pub fn clear(&mut self)
        ensures
            final(self)@ == Map::<PeerId, Set<BatchId>>::empty(),
    {
        self.map.clear();
        assert(self@ =~= Map::<PeerId, Set<BatchId>>::empty());
    }
}

/// To register a batch adds it to what is to come from the peer, and to unregister it takes it
/// away; nothing else changes, and the one undoes the other.
pub proof fn law_registering(
    requests: Map<PeerId, Set<BatchId>>,
    peer: PeerId,
    id: BatchId,
    other: PeerId,
    k: BatchId,
)
    ensures
        is_requested(registered(requests, peer, id), other, k) <==> is_requested(
            requests,
            other,
            k,
        ) || (other == peer && k == id),
        is_requested(unregistered(requests, peer, id), other, k) <==> is_requested(
            requests,
            other,
            k,
        ) && !(other == peer && k == id),
        requests.contains_key(peer) && requests[peer].finite() && !requests[peer].contains(id) ==> {
            &&& load(registered(requests, peer, id), peer) == load(requests, peer) + 1
            &&& unregistered(registered(requests, peer, id), peer, id) == requests
        },
        other != peer ==> {
            &&& load(registered(requests, peer, id), other) == load(requests, other)
            &&& load(unregistered(requests, peer, id), other) == load(requests, other)
        },
        !requests.contains_key(peer) ==> load(registered(requests, peer, id), peer) == 1,
{
    if requests.contains_key(peer) && !requests[peer].contains(id) {
        assert(requests[peer].insert(id).remove(id) =~= requests[peer]);
        assert(unregistered(registered(requests, peer, id), peer, id) =~= requests);
    }
}

} // verus!
