//! Traversals of a consignment: a single chain from an endpoint towards
//! genesis, and a scan of every bundle's transitions by type.
use vstd::prelude::*;

use crate::bundle::BundleItem;
use crate::consignment::{
    is_endpoint_bundle, is_endpoint_node, is_transition, transition_at, ConsistencyError, FullConsignment,
};
use crate::node::{parents_of_type, NodeId, Transition};
use crate::seal::Txid;

verus! {

/// Walk over a chain of transitions connected one to one by owned rights of
/// type `connected_by`, with their witness transaction ids. A structural
/// error ends the walk and stays readable through `is_err` and
/// `into_result`.
#[derive(Debug)]
pub struct ChainIter<'iter> {
    pub consignment: &'iter FullConsignment,
    pub connected_by: u16,
    pub next_item: Option<(&'iter Transition, Txid)>,
    pub error: Option<ConsistencyError>,
}

/// `item` is transition `d` of the consignment, with its bundle's witness
/// transaction id.
pub open spec fn located(c: FullConsignment, d: Seq<u8>, item: (&Transition, Txid)) -> bool {
    exists|i: int|
        transition_at(c, i, *item.0, d) && (#[trigger] c.anchored_bundles@[i]).0.txid == item.1
}

impl<'iter> ChainIter<'iter> {
    /// Whether the walk was stopped by an error.
    pub fn is_err(&self) -> (r: bool)
        ensures
            r == self.error is Some,
    {
        self.error.is_some()
    }

    /// The error that stopped the walk, if any.
    pub fn into_result(self) -> (r: Result<(), ConsistencyError>)
        ensures
            match self.error {
                Some(e) => r == Err::<(), ConsistencyError>(e),
                None => r is Ok,
            },
    {
        match self.error {
            Some(err) => Err(err),
            None => Ok(()),
        }
    }

    /// Yields the current transition while it has a parent output of the
    /// connecting type, and moves to the transition of the first such
    /// output; a parent missing from the consignment ends the walk with an
    /// error.
    pub fn next(&mut self) -> (r: Option<(&'iter Transition, Txid)>)
        ensures
            final(self).consignment == old(self).consignment,
            final(self).connected_by == old(self).connected_by,
            match old(self).next_item {
                None => r is None && *final(self) == *old(self),
                Some(item) => {
                    let ps = parents_of_type(item.0.parent_outputs@, old(self).connected_by);
                    if ps.len() == 0 {
                        r is None && final(self).next_item is None && final(self).error == old(self).error
                    } else {
                        let d = ps[0].node_id.bytes@;
                        &&& r == Some(item)
                        &&& is_transition(*old(self).consignment, d) ==> {
                            &&& final(self).error == old(self).error
                            &&& final(self).next_item matches Some(n) && located(*old(self).consignment, d, n)
                        }
                        &&& !is_transition(*old(self).consignment, d) ==> {
                            &&& final(self).next_item is None
                            &&& final(self).error == Some(ConsistencyError::TransitionAbsent(ps[0].node_id))
                        }
                    }
                },
            },
    {
        let item = match self.next_item {
            Some(item) => item,
            None => {
                return None;
            },
        };
        let parents = item.0.parent_outputs_by_type(self.connected_by);
        if parents.len() == 0 {
            self.next_item = None;
            return None;
        }
        let output = parents[0];
        match self.consignment.transition_witness_by_id(output.node_id) {
            Ok(next) => {
                self.next_item = Some(next);
            },
            Err(err) => {
                self.next_item = None;
                self.error = Some(err);
            },
        }
        Some(item)
    }
}

/// Transitions of `items` whose type is among `types`, each with `txid`.
pub open spec fn typed_witnesses(items: Seq<BundleItem>, types: Seq<u16>, txid: Txid) -> Seq<(Transition, Txid)>
    decreases items.len(),
{
    if items.len() == 0 {
        seq![]
    } else if types.contains(items.last().transition.transition_type) {
        typed_witnesses(items.drop_last(), types, txid).push((items.last().transition, txid))
    } else {
        typed_witnesses(items.drop_last(), types, txid)
    }
}

/// Transitions of the first `n` bundles whose type is among `types`, in
/// order, each with its bundle's witness transaction id.
pub open spec fn mesh_seq(c: FullConsignment, types: Seq<u16>, n: int) -> Seq<(Transition, Txid)>
    decreases n,
{
    if n <= 0 {
        seq![]
    } else {
        mesh_seq(c, types, n - 1) + typed_witnesses(
            c.anchored_bundles@[n - 1].1.items@,
            types,
            c.anchored_bundles@[n - 1].0.txid,
        )
    }
}

impl FullConsignment {
    /// Walk from the endpoint transition `start_with` along owned rights of
    /// type `connected_by`. A start that is not an endpoint transition gives
    /// an empty walk that reports `NotEndpoint`.
    pub fn chain_iter(&self, start_with: NodeId, connected_by: u16) -> (r: ChainIter)
        ensures
            r.consignment == self,
            r.connected_by == connected_by,
            is_endpoint_node(*self, start_with.bytes@) ==> r.error is None && (r.next_item matches Some(n) && exists|i: int|
                transition_at(*self, i, *n.0, start_with.bytes@) && #[trigger] is_endpoint_bundle(*self, i)
                    && self.anchored_bundles@[i].0.txid == n.1),
            !is_endpoint_node(*self, start_with.bytes@) ==> r.next_item is None && r.error == Some(ConsistencyError::NotEndpoint(start_with)),
    {
        match self.endpoint_witness_by_id(start_with) {
            Ok(item) => ChainIter { consignment: self, connected_by, next_item: Some(item), error: None },
            Err(err) => ChainIter { consignment: self, connected_by, next_item: None, error: Some(err) },
        }
    }

    /// Every transition of every bundle whose type is among
    /// `transition_types`, bundle by bundle in anchored order, each with its
    /// bundle's witness transaction id.
    pub fn transition_witness_iter(&self, transition_types: &Vec<u16>) -> (r: Vec<(&Transition, Txid)>)
        ensures
            r@.len() == mesh_seq(*self, transition_types@, self.anchored_bundles@.len() as int).len(),
            forall|k: int| 0 <= k < r@.len() ==> {
                let m = mesh_seq(*self, transition_types@, self.anchored_bundles@.len() as int)[k];
                *(#[trigger] r@[k]).0 == m.0 && r@[k].1 == m.1
            },
    {
        let mut r: Vec<(&Transition, Txid)> = Vec::new();
        let mut i: usize = 0;
        while i < self.anchored_bundles.len()
            invariant
                i <= self.anchored_bundles@.len(),
                r@.len() == mesh_seq(*self, transition_types@, i as int).len(),
                forall|k: int| 0 <= k < r@.len() ==> {
                    let m = mesh_seq(*self, transition_types@, i as int)[k];
                    *(#[trigger] r@[k]).0 == m.0 && r@[k].1 == m.1
                },
            decreases self.anchored_bundles@.len() - i,
        {
            let txid = self.anchored_bundles[i].0.txid;
            let bundle = &self.anchored_bundles[i].1;
            let ghost base = mesh_seq(*self, transition_types@, i as int);
            let mut j: usize = 0;
            while j < bundle.items.len()
                invariant
                    i < self.anchored_bundles@.len(),
                    *bundle == self.anchored_bundles@[i as int].1,
                    txid == self.anchored_bundles@[i as int].0.txid,
                    j <= bundle.items@.len(),
                    r@.len() == base.len() + typed_witnesses(bundle.items@.subrange(0, j as int), transition_types@, txid).len(),
                    forall|k: int| 0 <= k < r@.len() ==> {
                        let m = (base + typed_witnesses(bundle.items@.subrange(0, j as int), transition_types@, txid))[k];
                        *(#[trigger] r@[k]).0 == m.0 && r@[k].1 == m.1
                    },
                decreases bundle.items@.len() - j,
            {
                proof {
                    assert(bundle.items@.subrange(0, j + 1).drop_last() =~= bundle.items@.subrange(0, j as int));
                }
                if crate::consignment::contains_u16(transition_types, bundle.items[j].transition.transition_type) {
                    r.push((&bundle.items[j].transition, txid));
                }
                j = j + 1;
            }
            assert(bundle.items@.subrange(0, bundle.items@.len() as int) =~= bundle.items@);
            i = i + 1;
        }
        r
    }
}

} // verus!
