//! Transition bundles, which share one anchor in one witness transaction.
use vstd::prelude::*;
use vstd::string::StringSliceAdditionalSpecFns;

use crate::hash::{
    enc_seq, lemma_enc_seq_congruent, lemma_enc_seq_step, lemma_sum_prefix_le,
    lemma_sum_seq_step, le_u16, le_u64, push_digest, push_u16, push_u64, sum_seq, tagged_hash,
    tagged_hash_spec, Digest,
};
use crate::node::{
    apply_pass_rights, assignment_total, digest_set, finalize_hits, finalize_result,
    finalize_rights, lemma_pass_keeps_transition_id, lemma_rights_result_keeps_commit,
    pass_spec, rights_hits, rights_result, same_but_rights, transition_commit, transition_id,
    NodeId, Pass, PassSpec, Transition,
};
use crate::seal::SecretSeal;
use crate::seal::Txid;

verus! {

/// Identifier of a transition bundle.
pub type BundleId = Digest;

/// A transition of a bundle with the indices of the bundle inputs it spends.
#[derive(Clone, Debug)]
pub struct BundleItem {
    pub transition: Transition,
    pub inputs: Vec<u16>,
}

/// Transitions sharing one anchor, in a fixed order.
#[derive(Clone, Debug)]
pub struct TransitionBundle {
    pub items: Vec<BundleItem>,
}

/// Proof that a bundle's commitment is embedded in the transaction `txid`.
#[derive(Clone, Debug)]
pub struct Anchor {
    pub txid: Txid,
    /// Merkle path of the multi-message commitment, kept as bytes.
    pub mpc_proof: Vec<u8>,
}

pub open spec fn bundle_tag() -> Seq<u8> {
    "rgb:bundle".spec_bytes()
}

pub open spec fn input_enc() -> spec_fn(u16) -> Seq<u8> {
    |x: u16| le_u16(x)
}

/// What a bundle commits to of an item: the transition's id and its inputs.
pub open spec fn item_commit(it: BundleItem) -> Seq<u8> {
    transition_id(it.transition) + le_u64(it.inputs@.len() as u64) + enc_seq(
        it.inputs@,
        input_enc(),
    )
}

pub open spec fn item_enc() -> spec_fn(BundleItem) -> Seq<u8> {
    |it: BundleItem| item_commit(it)
}

pub open spec fn bundle_commit(b: TransitionBundle) -> Seq<u8> {
    le_u64(b.items@.len() as u64) + enc_seq(b.items@, item_enc())
}

pub open spec fn bundle_id(b: TransitionBundle) -> Seq<u8> {
    tagged_hash_spec(bundle_tag(), bundle_commit(b))
}

pub open spec fn item_assignments() -> spec_fn(BundleItem) -> nat {
    |it: BundleItem| assignment_total(it.transition.owned_rights@)
}

/// Number of assignments over all transitions of a bundle.
pub open spec fn bundle_assignments(items: Seq<BundleItem>) -> nat {
    sum_seq(items, item_assignments())
}

pub open spec fn item_hits(p: PassSpec) -> spec_fn(BundleItem) -> nat {
    |it: BundleItem| rights_hits(p, it.transition.owned_rights@)
}

/// Number of assignments of a bundle's transitions that a pass changes.
pub open spec fn items_hits(p: PassSpec, items: Seq<BundleItem>) -> nat {
    sum_seq(items, item_hits(p))
}

/// What a pass makes of a bundle item.
pub open spec fn item_result(p: PassSpec, a: BundleItem, b: BundleItem) -> bool {
    &&& b.inputs == a.inputs
    &&& same_but_rights(a.transition, b.transition)
    &&& rights_result(p, a.transition.owned_rights@, b.transition.owned_rights@)
}

/// What a pass makes of a bundle's items.
pub open spec fn items_result(p: PassSpec, s1: Seq<BundleItem>, s2: Seq<BundleItem>) -> bool {
    &&& s2.len() == s1.len()
    &&& forall|i: int| 0 <= i < s1.len() ==> item_result(p, #[trigger] s1[i], s2[i])
}

/// Applies a pass to every transition of a bundle's items.
pub fn apply_pass_items(items: &mut Vec<BundleItem>, p: &Pass) -> (count: usize)
    requires
        bundle_assignments(old(items)@) <= usize::MAX,
    ensures
        items_result(pass_spec(*p), old(items)@, final(items)@),
        count == items_hits(pass_spec(*p), old(items)@),
        count <= bundle_assignments(old(items)@),
{
    let ghost start = items@;
    let mut count: usize = 0;
    let mut i: usize = 0;
    while i < items.len()
        invariant
            items@.len() == start.len(),
            start == old(items)@,
            bundle_assignments(start) <= usize::MAX,
            i <= start.len(),
            forall|j: int| 0 <= j < i ==> item_result(pass_spec(*p), #[trigger] start[j], items@[j]),
            forall|j: int| i <= j < start.len() ==> #[trigger] items@[j] == start[j],
            count == sum_seq(start.subrange(0, i as int), item_hits(pass_spec(*p))),
            count <= sum_seq(start.subrange(0, i as int), item_assignments()),
        decreases start.len() - i,
    {
        proof {
            lemma_sum_seq_step(start, i as int, item_hits(pass_spec(*p)));
            lemma_sum_seq_step(start, i as int, item_assignments());
            lemma_sum_prefix_le(start, i as int + 1, item_assignments());
        }
        let n = apply_pass_rights(&mut items[i].transition.owned_rights, p);
        count = count + n;
        i = i + 1;
    }
    assert(start.subrange(0, start.len() as int) =~= start);
    count
}

impl TransitionBundle {
    /// Id of the bundle: the tagged hash of its items' transition ids and
    /// inputs.
    pub fn bundle_id(&self) -> (r: BundleId)
        ensures
            r.bytes@ == bundle_id(*self),
    {
        let mut buf: Vec<u8> = Vec::new();
        push_u64(&mut buf, self.items.len() as u64);
        let ghost start = buf@;
        let mut i: usize = 0;
        while i < self.items.len()
            invariant
                i <= self.items@.len(),
                buf@ == start + enc_seq(self.items@.subrange(0, i as int), item_enc()),
            decreases self.items@.len() - i,
        {
            let it = &self.items[i];
            let ghost before = buf@;
            let id = it.transition.node_id();
            push_digest(&mut buf, &id);
            push_u64(&mut buf, it.inputs.len() as u64);
            let ghost mid = buf@;
            let mut j: usize = 0;
            while j < it.inputs.len()
                invariant
                    j <= it.inputs@.len(),
                    buf@ == mid + enc_seq(it.inputs@.subrange(0, j as int), input_enc()),
                decreases it.inputs@.len() - j,
            {
                push_u16(&mut buf, it.inputs[j]);
                proof {
                    lemma_enc_seq_step(it.inputs@, j as int, input_enc());
                }
                j = j + 1;
            }
            proof {
                assert(it.inputs@.subrange(0, it.inputs@.len() as int) =~= it.inputs@);
                assert(buf@ =~= before + item_commit(*it));
                lemma_enc_seq_step(self.items@, i as int, item_enc());
            }
            i = i + 1;
        }
        assert(self.items@.subrange(0, self.items@.len() as int) =~= self.items@);
        assert(buf@ =~= bundle_commit(*self));
        tagged_hash("rgb:bundle", &buf)
    }

    /// Ids of the bundle's transitions, in order.
    pub fn known_node_ids(&self) -> (r: Vec<NodeId>)
        ensures
            r@.len() == self.items@.len(),
            forall|i: int| 0 <= i < r@.len() ==> (#[trigger] r@[i]).bytes@ == transition_id(self.items@[i].transition),
    {
        let mut r: Vec<NodeId> = Vec::new();
        let mut i: usize = 0;
        while i < self.items.len()
            invariant
                i <= self.items@.len(),
                r@.len() == i,
                forall|k: int| 0 <= k < i ==> (#[trigger] r@[k]).bytes@ == transition_id(self.items@[k].transition),
            decreases self.items@.len() - i,
        {
            let id = self.items[i].transition.node_id();
            r.push(id);
            i = i + 1;
        }
        r
    }

    /// The bundle's transitions, in order.
    pub fn known_transitions(&self) -> (r: Vec<&Transition>)
        ensures
            r@.len() == self.items@.len(),
            forall|i: int| 0 <= i < r@.len() ==> *(#[trigger] r@[i]) == self.items@[i].transition,
    {
        let mut r: Vec<&Transition> = Vec::new();
        let mut i: usize = 0;
        while i < self.items.len()
            invariant
                i <= self.items@.len(),
                r@.len() == i,
                forall|k: int| 0 <= k < i ==> *(#[trigger] r@[k]) == self.items@[k].transition,
            decreases self.items@.len() - i,
        {
            r.push(&self.items[i].transition);
            i = i + 1;
        }
        r
    }
}

/// Items changed by a pass keep their transition ids, and so the bundle id.
pub proof fn lemma_items_result_keeps_bundle_id(p: PassSpec, b1: TransitionBundle, b2: TransitionBundle)
    requires
        items_result(p, b1.items@, b2.items@),
    ensures
        bundle_id(b1) == bundle_id(b2),
        forall|i: int| 0 <= i < b1.items@.len() ==> transition_id(#[trigger] b1.items@[i].transition) == transition_id(b2.items@[i].transition),
{
    assert forall|i: int| 0 <= i < b1.items@.len() implies item_commit(#[trigger] b1.items@[i]) == item_commit(b2.items@[i]) by {
        lemma_pass_keeps_transition_id(p, b1.items@[i].transition, b2.items@[i].transition);
    }
    assert forall|i: int| 0 <= i < b1.items@.len() implies item_enc()(#[trigger] b1.items@[i]) == item_enc()(b2.items@[i]) by {
        assert(item_commit(b1.items@[i]) == item_commit(b2.items@[i]));
    }
    lemma_enc_seq_congruent(b1.items@, b2.items@, item_enc());
    assert forall|i: int| 0 <= i < b1.items@.len() implies transition_id(#[trigger] b1.items@[i].transition) == transition_id(b2.items@[i].transition) by {
        lemma_pass_keeps_transition_id(p, b1.items@[i].transition, b2.items@[i].transition);
    }
}

/// What finalization makes of a bundle item.
pub open spec fn item_finalized(keep: Set<Seq<u8>>, hidden: Set<Seq<u8>>, a: BundleItem, b: BundleItem) -> bool {
    &&& b.inputs == a.inputs
    &&& same_but_rights(a.transition, b.transition)
    &&& finalize_result(keep, hidden, a.transition.owned_rights@, b.transition.owned_rights@)
}

/// What finalization makes of a bundle's items: the same items in the same
/// order, each finalized.
pub open spec fn items_finalized(keep: Set<Seq<u8>>, hidden: Set<Seq<u8>>, s1: Seq<BundleItem>, s2: Seq<BundleItem>) -> bool {
    &&& s2.len() == s1.len()
    &&& forall|i: int| 0 <= i < s1.len() ==> item_finalized(keep, hidden, #[trigger] s1[i], s2[i])
}

pub open spec fn item_finalize_hits(keep: Set<Seq<u8>>, hidden: Set<Seq<u8>>) -> spec_fn(BundleItem) -> nat {
    |it: BundleItem| finalize_hits(keep, hidden, it.transition.owned_rights@)
}

/// Finalizes every transition of a bundle's items.
pub fn finalize_items(items: &mut Vec<BundleItem>, keep: &Vec<SecretSeal>, hidden: &Vec<SecretSeal>) -> (count: usize)
    requires
        2 * bundle_assignments(old(items)@) <= usize::MAX,
    ensures
        items_finalized(digest_set(keep@), digest_set(hidden@), old(items)@, final(items)@),
        count == sum_seq(old(items)@, item_finalize_hits(digest_set(keep@), digest_set(hidden@))),
        count <= 2 * bundle_assignments(old(items)@),
{
    let ghost start = items@;
    let ghost f = item_finalize_hits(digest_set(keep@), digest_set(hidden@));
    let mut count: usize = 0;
    let mut i: usize = 0;
    while i < items.len()
        invariant
            items@.len() == start.len(),
            start == old(items)@,
            f == item_finalize_hits(digest_set(keep@), digest_set(hidden@)),
            2 * bundle_assignments(start) <= usize::MAX,
            i <= start.len(),
            forall|j: int| 0 <= j < i ==> item_finalized(digest_set(keep@), digest_set(hidden@), #[trigger] start[j], items@[j]),
            forall|j: int| i <= j < start.len() ==> #[trigger] items@[j] == start[j],
            count == sum_seq(start.subrange(0, i as int), f),
            count <= 2 * sum_seq(start.subrange(0, i as int), item_assignments()),
        decreases start.len() - i,
    {
        proof {
            lemma_sum_seq_step(start, i as int, f);
            lemma_sum_seq_step(start, i as int, item_assignments());
            lemma_sum_prefix_le(start, i as int + 1, item_assignments());
        }
        let n = finalize_rights(&mut items[i].transition.owned_rights, keep, hidden);
        count = count + n;
        i = i + 1;
    }
    assert(start.subrange(0, start.len() as int) =~= start);
    count
}

/// Finalization keeps a transition's id.
pub proof fn lemma_finalize_keeps_transition_id(keep: Set<Seq<u8>>, hidden: Set<Seq<u8>>, t1: Transition, t2: Transition)
    requires
        same_but_rights(t1, t2),
        finalize_result(keep, hidden, t1.owned_rights@, t2.owned_rights@),
    ensures
        transition_id(t1) == transition_id(t2),
{
    let mid = choose|mid: Seq<crate::node::OwnedRight>|
        rights_result(PassSpec::ConcealStateExcept(keep), t1.owned_rights@, mid) && rights_result(
            PassSpec::ConcealSeals(hidden),
            mid,
            t2.owned_rights@,
        );
    lemma_rights_result_keeps_commit(PassSpec::ConcealStateExcept(keep), t1.owned_rights@, mid);
    lemma_rights_result_keeps_commit(PassSpec::ConcealSeals(hidden), mid, t2.owned_rights@);
    assert(transition_commit(t1) == transition_commit(t2));
}

/// Finalization keeps every transition id of a bundle, and the bundle id.
pub proof fn lemma_finalize_keeps_bundle_id(keep: Set<Seq<u8>>, hidden: Set<Seq<u8>>, b1: TransitionBundle, b2: TransitionBundle)
    requires
        items_finalized(keep, hidden, b1.items@, b2.items@),
    ensures
        bundle_id(b1) == bundle_id(b2),
        forall|i: int| 0 <= i < b1.items@.len() ==> transition_id(#[trigger] b1.items@[i].transition) == transition_id(b2.items@[i].transition),
{
    assert forall|i: int| 0 <= i < b1.items@.len() implies transition_id(#[trigger] b1.items@[i].transition) == transition_id(b2.items@[i].transition) by {
        assert(item_finalized(keep, hidden, b1.items@[i], b2.items@[i]));
        lemma_finalize_keeps_transition_id(keep, hidden, b1.items@[i].transition, b2.items@[i].transition);
    }
    assert forall|i: int| 0 <= i < b1.items@.len() implies item_enc()(#[trigger] b1.items@[i]) == item_enc()(b2.items@[i]) by {
        assert(item_finalized(keep, hidden, b1.items@[i], b2.items@[i]));
        assert(transition_id(b1.items@[i].transition) == transition_id(b2.items@[i].transition));
    }
    lemma_enc_seq_congruent(b1.items@, b2.items@, item_enc());
}

} // verus!
