//! The consignment container: schema, genesis, anchored bundles, state
//! extensions and the endpoints it asserts, with lookups over its graph.
use vstd::prelude::*;

use crate::bundle::{
    apply_pass_items, bundle_assignments, bundle_id, finalize_items, item_finalize_hits,
    items_finalized, items_hits, items_result, lemma_finalize_keeps_bundle_id,
    lemma_items_result_keeps_bundle_id, Anchor, BundleId, TransitionBundle,
};
use crate::hash::{
    digest_eq, digest_lt, lemma_lex_asym, lemma_lex_total, lemma_lex_trans, lemma_sum_prefix_le,
    lemma_sum_seq_step, lemma_sum_seq_zero, lex_lt, sum_seq, Digest,
};
use crate::node::{
    apply_pass_rights, assignment_total, digest_set, extension_id, genesis_id,
    lemma_finalized_rights_quiet, lemma_pass_keeps_extension_id, lemma_state_pass_quiet,
    pass_spec, rights_hits, rights_result, transition_id, Extension, Genesis, NodeId, Pass,
    PassSpec, Transition,
};
use crate::seal::{terminal_seal_digest, GraphSeal, SecretSeal, TerminalSeal, Txid};

verus! {

broadcast use vstd::array::group_array_axioms;

/// The only consignment version this library reads and writes.
pub const RGB_CONSIGNMENT_VERSION: u8 = 0;

/// Contract schema, carried in its encoded form: the graph, seal and
/// concealment machinery never looks inside it.
#[derive(Clone, Debug)]
pub struct Schema {
    pub data: Vec<u8>,
}

/// A structural inconsistency of a consignment.
#[derive(Clone, Copy, Debug)]
pub enum ConsistencyError {
    /// The node is not a transition of any endpoint bundle.
    NotEndpoint(NodeId),
    /// No transition of the consignment has this id.
    TransitionAbsent(NodeId),
    /// No bundle of the consignment has this id.
    BundleAbsent(BundleId),
}

/// A self-contained proof of a contract's state, from genesis to the
/// endpoints it asserts.
#[derive(Clone, Debug)]
pub struct FullConsignment {
    pub version: u8,
    pub schema: Schema,
    pub genesis: Genesis,
    /// The final state asserted: bundles and the seals of their outputs.
    pub endpoints: Vec<(BundleId, TerminalSeal)>,
    /// Every anchored bundle, each with the anchor of its witness
    /// transaction.
    pub anchored_bundles: Vec<(Anchor, TransitionBundle)>,
    pub state_extensions: Vec<Extension>,
}

/// The digests held by a list of digests.
pub open spec fn digests_of(s: Seq<Digest>) -> Set<Seq<u8>> {
    Set::new(|d: Seq<u8>| exists|i: int| 0 <= i < s.len() && (#[trigger] s[i]).bytes@ == d)
}

/// No digest occurs twice in the list.
pub open spec fn distinct_digests(s: Seq<Digest>) -> bool {
    forall|i: int, j: int| 0 <= i < j < s.len() ==> (#[trigger] s[i]).bytes@ != (#[trigger] s[j]).bytes@
}

/// Appends `d` unless the list holds it already.
fn insert_digest(v: &mut Vec<Digest>, d: Digest)
    requires
        distinct_digests(old(v)@),
    ensures
        distinct_digests(final(v)@),
        digests_of(final(v)@) == digests_of(old(v)@).insert(d.bytes@),
        digests_of(old(v)@).contains(d.bytes@) ==> final(v)@ == old(v)@,
        !digests_of(old(v)@).contains(d.bytes@) ==> final(v)@ == old(v)@.push(d),
{
    let mut i: usize = 0;
    while i < v.len()
        invariant
            i <= v@.len(),
            v@ == old(v)@,
            distinct_digests(v@),
            forall|k: int| 0 <= k < i ==> (#[trigger] v@[k]).bytes@ != d.bytes@,
        decreases v@.len() - i,
    {
        if digest_eq(&v[i], &d) {
            assert(digests_of(v@) =~= digests_of(v@).insert(d.bytes@));
            assert(digests_of(v@).contains(d.bytes@));
            return;
        }
        i = i + 1;
    }
    let ghost before = v@;
    assert(!digests_of(before).contains(d.bytes@));
    v.push(d);
    assert(v@[before.len() as int] == d);
    assert forall|a: int, b: int| 0 <= a < b < v@.len() implies (#[trigger] v@[a]).bytes@ != (#[trigger] v@[b]).bytes@ by {
        assert(v@[a] == before[a]);
        if b < before.len() {
            assert(v@[b] == before[b]);
        }
    }
    assert forall|x: Seq<u8>| digests_of(v@).contains(x) == digests_of(before).insert(d.bytes@).contains(x) by {
        if digests_of(v@).contains(x) {
            let k = choose|k: int| 0 <= k < v@.len() && (#[trigger] v@[k]).bytes@ == x;
            if k < before.len() {
                assert(before[k] == v@[k]);
            }
        }
        if digests_of(before).contains(x) {
            let k = choose|k: int| 0 <= k < before.len() && (#[trigger] before[k]).bytes@ == x;
            assert(v@[k] == before[k]);
        }
    }
    assert(digests_of(v@) =~= digests_of(before).insert(d.bytes@));
}

/// Ids of the bundles that the endpoints name.
pub open spec fn endpoint_bundle_set(c: FullConsignment) -> Set<Seq<u8>> {
    Set::new(|d: Seq<u8>| exists|i: int| 0 <= i < c.endpoints@.len() && (#[trigger] c.endpoints@[i]).0.bytes@ == d)
}

/// Ids of the transactions that the anchors commit into.
pub open spec fn txid_set(c: FullConsignment) -> Set<Seq<u8>> {
    Set::new(|d: Seq<u8>| exists|i: int| 0 <= i < c.anchored_bundles@.len() && (#[trigger] c.anchored_bundles@[i]).0.txid.bytes@ == d)
}

/// Whether `d` is the id of a transition of bundle `i`.
pub open spec fn in_bundle(c: FullConsignment, i: int, d: Seq<u8>) -> bool {
    exists|j: int| 0 <= j < c.anchored_bundles@[i].1.items@.len() && transition_id((#[trigger] c.anchored_bundles@[i].1.items@[j]).transition) == d
}

/// Whether `d` is the id of a transition of some bundle.
pub open spec fn is_transition(c: FullConsignment, d: Seq<u8>) -> bool {
    exists|i: int| 0 <= i < c.anchored_bundles@.len() && #[trigger] in_bundle(c, i, d)
}

/// Whether bundle `i` is named by an endpoint.
pub open spec fn is_endpoint_bundle(c: FullConsignment, i: int) -> bool {
    endpoint_bundle_set(c).contains(bundle_id(c.anchored_bundles@[i].1))
}

/// Whether `d` is the id of a transition of a bundle that an endpoint names.
pub open spec fn is_endpoint_node(c: FullConsignment, d: Seq<u8>) -> bool {
    exists|i: int| 0 <= i < c.anchored_bundles@.len() && #[trigger] is_endpoint_bundle(c, i) && in_bundle(c, i, d)
}

/// Ids of every node: the genesis, every transition of every bundle and
/// every extension.
pub open spec fn node_set(c: FullConsignment) -> Set<Seq<u8>> {
    Set::new(|d: Seq<u8>| d == genesis_id(c.genesis) || is_transition(c, d) || exists|k: int|
        0 <= k < c.state_extensions@.len() && extension_id(#[trigger] c.state_extensions@[k]) == d)
}

/// The digests ascend strictly in byte order.
pub open spec fn ascending(s: Seq<Digest>) -> bool {
    forall|i: int, j: int| 0 <= i < j < s.len() ==> lex_lt((#[trigger] s[i]).bytes@, (#[trigger] s[j]).bytes@)
}

/// Ascending digests are distinct.
pub proof fn lemma_ascending_distinct(s: Seq<Digest>)
    requires
        ascending(s),
    ensures
        distinct_digests(s),
{
    assert forall|i: int, j: int| 0 <= i < j < s.len() implies (#[trigger] s[i]).bytes@ != (#[trigger] s[j]).bytes@ by {
        lemma_lex_asym(s[i].bytes@, s[j].bytes@);
    }
}

/// One set of digests has one ascending list.
pub proof fn lemma_ascending_unique(s1: Seq<Digest>, s2: Seq<Digest>)
    requires
        ascending(s1),
        ascending(s2),
        digests_of(s1) == digests_of(s2),
    ensures
        s1 == s2,
    decreases s1.len(),
{
    if s1.len() == 0 {
        if s2.len() > 0 {
            assert(digests_of(s2).contains(s2[0].bytes@));
        }
        assert(s1 =~= s2);
    } else {
        assert(digests_of(s1).contains(s1[0].bytes@));
        assert(s2.len() > 0);
        let m1 = s1[0];
        let m2 = s2[0];
        assert(digests_of(s1).contains(m2.bytes@));
        let j = choose|j: int| 0 <= j < s1.len() && (#[trigger] s1[j]).bytes@ == m2.bytes@;
        assert(digests_of(s2).contains(m1.bytes@));
        let k = choose|k: int| 0 <= k < s2.len() && (#[trigger] s2[k]).bytes@ == m1.bytes@;
        if j > 0 && k > 0 {
            assert(lex_lt(m1.bytes@, m2.bytes@));
            assert(lex_lt(m2.bytes@, m1.bytes@));
            lemma_lex_asym(m1.bytes@, m2.bytes@);
        }
        assert(m1.bytes@ == m2.bytes@);
        assert(m1.bytes =~= m2.bytes);
        let t1 = s1.drop_first();
        let t2 = s2.drop_first();
        lemma_ascending_distinct(s1);
        lemma_ascending_distinct(s2);
        assert forall|d: Seq<u8>| digests_of(t1).contains(d) == digests_of(t2).contains(d) by {
            if digests_of(t1).contains(d) {
                let x = choose|x: int| 0 <= x < t1.len() && (#[trigger] t1[x]).bytes@ == d;
                assert(s1[x + 1] == t1[x]);
                assert(digests_of(s2).contains(d));
                let y = choose|y: int| 0 <= y < s2.len() && (#[trigger] s2[y]).bytes@ == d;
                assert(y != 0);
                assert(t2[y - 1] == s2[y]);
            }
            if digests_of(t2).contains(d) {
                let x = choose|x: int| 0 <= x < t2.len() && (#[trigger] t2[x]).bytes@ == d;
                assert(s2[x + 1] == t2[x]);
                assert(digests_of(s1).contains(d));
                let y = choose|y: int| 0 <= y < s1.len() && (#[trigger] s1[y]).bytes@ == d;
                assert(y != 0);
                assert(t1[y - 1] == s1[y]);
            }
        }
        assert(digests_of(t1) =~= digests_of(t2));
        assert(ascending(t1)) by {
            assert forall|a: int, b: int| 0 <= a < b < t1.len() implies lex_lt((#[trigger] t1[a]).bytes@, (#[trigger] t1[b]).bytes@) by {
                assert(t1[a] == s1[a + 1] && t1[b] == s1[b + 1]);
            }
        }
        assert(ascending(t2)) by {
            assert forall|a: int, b: int| 0 <= a < b < t2.len() implies lex_lt((#[trigger] t2[a]).bytes@, (#[trigger] t2[b]).bytes@) by {
                assert(t2[a] == s2[a + 1] && t2[b] == s2[b + 1]);
            }
        }
        lemma_ascending_unique(t1, t2);
        assert(s1 =~= s2) by {
            assert forall|x: int| 0 <= x < s1.len() implies s1[x] == s2[x] by {
                if x > 0 {
                    assert(s1[x] == t1[x - 1] && s2[x] == t2[x - 1]);
                }
            }
        }
    }
}

/// Inserts `d` in an ascending list unless the list holds it already.
fn insert_ascending(v: &mut Vec<Digest>, d: Digest)
    requires
        ascending(old(v)@),
    ensures
        ascending(final(v)@),
        digests_of(final(v)@) == digests_of(old(v)@).insert(d.bytes@),
{
    let mut i: usize = 0;
    while i < v.len() && digest_lt(&v[i], &d)
        invariant
            i <= v@.len(),
            v@ == old(v)@,
            ascending(v@),
            forall|j: int| 0 <= j < i ==> lex_lt((#[trigger] v@[j]).bytes@, d.bytes@),
        decreases v@.len() - i,
    {
        i = i + 1;
    }
    if i < v.len() && digest_eq(&v[i], &d) {
        assert(digests_of(v@) =~= digests_of(v@).insert(d.bytes@)) by {
            assert(digests_of(v@).contains(d.bytes@));
        }
        return;
    }
    let ghost before = v@;
    proof {
        if i < before.len() {
            lemma_lex_total(before[i as int].bytes@, d.bytes@);
        }
    }
    v.insert(i, d);
    assert forall|a: int, b: int| 0 <= a < b < v@.len() implies lex_lt((#[trigger] v@[a]).bytes@, (#[trigger] v@[b]).bytes@) by {
        if a < i && b < i {
            assert(v@[a] == before[a] && v@[b] == before[b]);
        } else if a < i && b == i {
            assert(v@[a] == before[a]);
        } else if a < i {
            assert(v@[a] == before[a] && v@[b] == before[b - 1]);
            assert(lex_lt(before[a].bytes@, d.bytes@));
            assert(lex_lt(d.bytes@, before[i as int].bytes@));
            lemma_lex_trans(before[a].bytes@, d.bytes@, before[i as int].bytes@);
            if b - 1 > i {
                lemma_lex_trans(before[a].bytes@, before[i as int].bytes@, before[b - 1].bytes@);
            }
        } else if a == i {
            assert(v@[b] == before[b - 1]);
            assert(lex_lt(d.bytes@, before[i as int].bytes@));
            if b - 1 > i {
                lemma_lex_trans(d.bytes@, before[i as int].bytes@, before[b - 1].bytes@);
            }
        } else {
            assert(v@[a] == before[a - 1] && v@[b] == before[b - 1]);
        }
    }
    assert forall|x: Seq<u8>| digests_of(v@).contains(x) == digests_of(before).insert(d.bytes@).contains(x) by {
        if digests_of(v@).contains(x) {
            let k = choose|k: int| 0 <= k < v@.len() && (#[trigger] v@[k]).bytes@ == x;
            if k < i {
                assert(v@[k] == before[k]);
            } else if k > i {
                assert(v@[k] == before[k - 1]);
            }
        }
        if digests_of(before).contains(x) {
            let k = choose|k: int| 0 <= k < before.len() && (#[trigger] before[k]).bytes@ == x;
            if k < i {
                assert(v@[k] == before[k]);
            } else {
                assert(v@[k + 1] == before[k]);
            }
        }
        if x == d.bytes@ {
            assert(v@[i as int] == d);
        }
    }
    assert(digests_of(v@) =~= digests_of(before).insert(d.bytes@));
}

/// The bundle ids that the endpoints name, each once, in ascending byte
/// order.
pub open spec fn endpoint_ids(c: FullConsignment) -> Seq<Digest> {
    choose|s: Seq<Digest>| ascending(s) && digests_of(s) == endpoint_bundle_set(c)
}

/// Bundle `i` is the first anchored bundle with id `id`.
pub open spec fn is_first(c: FullConsignment, id: Seq<u8>, i: int) -> bool {
    &&& 0 <= i < c.anchored_bundles@.len()
    &&& bundle_id(c.anchored_bundles@[i].1) == id
    &&& forall|k: int| 0 <= k < i ==> bundle_id(#[trigger] c.anchored_bundles@[k].1) != id
}

/// Whether some anchored bundle has id `id`.
pub open spec fn has_bundle(c: FullConsignment, id: Seq<u8>) -> bool {
    exists|i: int| 0 <= i < c.anchored_bundles@.len() && bundle_id(#[trigger] c.anchored_bundles@[i].1) == id
}

/// Index of the first anchored bundle with id `id`.
pub open spec fn first_index(c: FullConsignment, id: Seq<u8>) -> int {
    choose|i: int| is_first(c, id, i)
}

/// There is at most one first bundle of an id.
pub proof fn lemma_first_unique(c: FullConsignment, id: Seq<u8>, i: int)
    requires
        is_first(c, id, i),
    ensures
        first_index(c, id) == i,
{
    let j = first_index(c, id);
    assert(is_first(c, id, j));
    if j < i {
        assert(bundle_id(c.anchored_bundles@[j].1) != id);
    }
    if i < j {
        assert(bundle_id(c.anchored_bundles@[i].1) != id);
    }
}

/// The transitions of `items` whose type is among `types`, in order.
pub open spec fn transitions_of_types(items: Seq<crate::bundle::BundleItem>, types: Seq<u16>) -> Seq<Transition>
    decreases items.len(),
{
    if items.len() == 0 {
        seq![]
    } else if types.contains(items.last().transition.transition_type) {
        transitions_of_types(items.drop_last(), types).push(items.last().transition)
    } else {
        transitions_of_types(items.drop_last(), types)
    }
}

/// The transitions whose type is among `types` of the bundles that the
/// first `n` endpoint bundle ids name (ascending, each once), taking for each id the first
/// bundle anchored with it; an id without a bundle adds nothing.
pub open spec fn endpoint_transitions_seq(c: FullConsignment, types: Seq<u16>, n: int) -> Seq<Transition>
    decreases n,
{
    if n <= 0 {
        seq![]
    } else {
        let id = endpoint_ids(c)[n - 1].bytes@;
        if has_bundle(c, id) {
            endpoint_transitions_seq(c, types, n - 1) + transitions_of_types(
                c.anchored_bundles@[first_index(c, id)].1.items@,
                types,
            )
        } else {
            endpoint_transitions_seq(c, types, n - 1)
        }
    }
}

impl FullConsignment {
    /// Consignment of the current version from its parts.
    pub fn with(
        schema: Schema,
        genesis: Genesis,
        endpoints: Vec<(BundleId, TerminalSeal)>,
        anchored_bundles: Vec<(Anchor, TransitionBundle)>,
        state_extensions: Vec<Extension>,
    ) -> (r: FullConsignment)
        ensures
            r.version == RGB_CONSIGNMENT_VERSION,
            r.schema == schema,
            r.genesis == genesis,
            r.endpoints == endpoints,
            r.anchored_bundles == anchored_bundles,
            r.state_extensions == state_extensions,
    {
        FullConsignment {
            version: RGB_CONSIGNMENT_VERSION,
            schema,
            genesis,
            endpoints,
            anchored_bundles,
            state_extensions,
        }
    }

    pub fn version(&self) -> (r: u8)
        ensures
            r == self.version,
    {
        self.version
    }

    /// Ids of every transaction an anchor commits into, each once.
    pub fn txids(&self) -> (r: Vec<Txid>)
        ensures
            distinct_digests(r@),
            digests_of(r@) == txid_set(*self),
    {
        let mut r: Vec<Txid> = Vec::new();
        let mut i: usize = 0;
        while i < self.anchored_bundles.len()
            invariant
                i <= self.anchored_bundles@.len(),
                distinct_digests(r@),
                digests_of(r@) == Set::new(|d: Seq<u8>| exists|k: int| 0 <= k < i && (#[trigger] self.anchored_bundles@[k]).0.txid.bytes@ == d),
            decreases self.anchored_bundles@.len() - i,
        {
            insert_digest(&mut r, self.anchored_bundles[i].0.txid);
            i = i + 1;
            assert(digests_of(r@) =~= Set::new(|d: Seq<u8>| exists|k: int| 0 <= k < i && (#[trigger] self.anchored_bundles@[k]).0.txid.bytes@ == d));
        }
        assert(digests_of(r@) =~= txid_set(*self));
        r
    }

    /// Ids of the bundles that the endpoints name, each once.
    pub fn endpoint_bundle_ids(&self) -> (r: Vec<BundleId>)
        ensures
            r@ == endpoint_ids(*self),
            ascending(r@),
            distinct_digests(r@),
            digests_of(r@) == endpoint_bundle_set(*self),
    {
        let mut r: Vec<BundleId> = Vec::new();
        let mut i: usize = 0;
        while i < self.endpoints.len()
            invariant
                i <= self.endpoints@.len(),
                ascending(r@),
                digests_of(r@) == Set::new(|d: Seq<u8>| exists|k: int| 0 <= k < i && (#[trigger] self.endpoints@[k]).0.bytes@ == d),
            decreases self.endpoints@.len() - i,
        {
            insert_ascending(&mut r, self.endpoints[i].0);
            i = i + 1;
            assert(digests_of(r@) =~= Set::new(|d: Seq<u8>| exists|k: int| 0 <= k < i && (#[trigger] self.endpoints@[k]).0.bytes@ == d));
        }
        assert(digests_of(r@) =~= endpoint_bundle_set(*self));
        proof {
            lemma_ascending_distinct(r@);
            let s = endpoint_ids(*self);
            assert(ascending(s) && digests_of(s) == endpoint_bundle_set(*self));
            lemma_ascending_unique(r@, s);
        }
        r
    }
}

/// Ids of the transitions of the first `n` bundles.
pub open spec fn bundles_nodes(c: FullConsignment, n: int) -> Set<Seq<u8>> {
    Set::new(|d: Seq<u8>| exists|k: int| 0 <= k < n && #[trigger] in_bundle(c, k, d))
}

/// Ids of the first `m` transitions of bundle `i`.
pub open spec fn items_nodes(c: FullConsignment, i: int, m: int) -> Set<Seq<u8>> {
    Set::new(|d: Seq<u8>| exists|j: int| 0 <= j < m && transition_id((#[trigger] c.anchored_bundles@[i].1.items@[j]).transition) == d)
}

/// Ids of the first `n` extensions.
pub open spec fn extensions_nodes(c: FullConsignment, n: int) -> Set<Seq<u8>> {
    Set::new(|d: Seq<u8>| exists|k: int| 0 <= k < n && extension_id(#[trigger] c.state_extensions@[k]) == d)
}

impl FullConsignment {
    /// Ids of every node of the consignment, each once: the genesis, every
    /// transition of every bundle and every extension.
    pub fn node_ids(&self) -> (r: Vec<NodeId>)
        ensures
            distinct_digests(r@),
            digests_of(r@) == node_set(*self),
    {
        let mut r: Vec<NodeId> = Vec::new();
        let g = self.genesis.node_id();
        insert_digest(&mut r, g);
        let ghost gs = set![genesis_id(self.genesis)];
        assert(digests_of(r@) =~= gs) by {
            assert(digests_of(Seq::<Digest>::empty()) =~= Set::empty());
        }
        let mut i: usize = 0;
        while i < self.anchored_bundles.len()
            invariant
                i <= self.anchored_bundles@.len(),
                distinct_digests(r@),
                digests_of(r@) == gs + bundles_nodes(*self, i as int),
            decreases self.anchored_bundles@.len() - i,
        {
            let ids = self.anchored_bundles[i].1.known_node_ids();
            let mut j: usize = 0;
            while j < ids.len()
                invariant
                    i < self.anchored_bundles@.len(),
                    j <= ids@.len(),
                    ids@.len() == self.anchored_bundles@[i as int].1.items@.len(),
                    forall|k: int| 0 <= k < ids@.len() ==> (#[trigger] ids@[k]).bytes@ == transition_id(self.anchored_bundles@[i as int].1.items@[k].transition),
                    distinct_digests(r@),
                    digests_of(r@) == gs + bundles_nodes(*self, i as int) + items_nodes(*self, i as int, j as int),
                decreases ids@.len() - j,
            {
                insert_digest(&mut r, ids[j]);
                j = j + 1;
                assert(items_nodes(*self, i as int, j as int) =~= items_nodes(*self, i as int, j - 1).insert(ids@[j - 1].bytes@));
                assert(digests_of(r@) =~= gs + bundles_nodes(*self, i as int) + items_nodes(*self, i as int, j as int));
            }
            assert forall|d: Seq<u8>| #[trigger] bundles_nodes(*self, i + 1).contains(d) == (bundles_nodes(*self, i as int) + items_nodes(*self, i as int, j as int)).contains(d) by {
                if in_bundle(*self, i as int, d) {
                    let jj = choose|jj: int| 0 <= jj < self.anchored_bundles@[i as int].1.items@.len() && transition_id((#[trigger] self.anchored_bundles@[i as int].1.items@[jj]).transition) == d;
                    assert(items_nodes(*self, i as int, j as int).contains(d));
                }
                if items_nodes(*self, i as int, j as int).contains(d) {
                    let jj = choose|jj: int| 0 <= jj < j && transition_id((#[trigger] self.anchored_bundles@[i as int].1.items@[jj]).transition) == d;
                    assert(in_bundle(*self, i as int, d));
                }
            }
            assert(bundles_nodes(*self, i + 1) =~= bundles_nodes(*self, i as int) + items_nodes(*self, i as int, j as int));
            i = i + 1;
            assert(digests_of(r@) =~= gs + bundles_nodes(*self, i as int));
        }
        let mut k: usize = 0;
        while k < self.state_extensions.len()
            invariant
                k <= self.state_extensions@.len(),
                distinct_digests(r@),
                digests_of(r@) == gs + bundles_nodes(*self, self.anchored_bundles@.len() as int) + extensions_nodes(*self, k as int),
            decreases self.state_extensions@.len() - k,
        {
            let id = self.state_extensions[k].node_id();
            insert_digest(&mut r, id);
            k = k + 1;
            assert(extensions_nodes(*self, k as int) =~= extensions_nodes(*self, k - 1).insert(id.bytes@));
            assert(digests_of(r@) =~= gs + bundles_nodes(*self, self.anchored_bundles@.len() as int) + extensions_nodes(*self, k as int));
        }
        assert forall|d: Seq<u8>| #[trigger] node_set(*self).contains(d) == (gs + bundles_nodes(*self, self.anchored_bundles@.len() as int) + extensions_nodes(*self, k as int)).contains(d) by {
            if is_transition(*self, d) {
                let b = choose|b: int| 0 <= b < self.anchored_bundles@.len() && #[trigger] in_bundle(*self, b, d);
                assert(bundles_nodes(*self, self.anchored_bundles@.len() as int).contains(d));
            }
            if bundles_nodes(*self, self.anchored_bundles@.len() as int).contains(d) {
                let b = choose|b: int| 0 <= b < self.anchored_bundles@.len() && #[trigger] in_bundle(*self, b, d);
                assert(is_transition(*self, d));
            }
        }
        assert(digests_of(r@) =~= node_set(*self));
        r
    }
}

/// Whether `t`, with id `d`, is a transition of bundle `i`.
pub open spec fn transition_at(c: FullConsignment, i: int, t: Transition, d: Seq<u8>) -> bool {
    &&& 0 <= i < c.anchored_bundles@.len()
    &&& exists|j: int| 0 <= j < c.anchored_bundles@[i].1.items@.len() && (#[trigger] c.anchored_bundles@[i].1.items@[j]).transition == t
    &&& transition_id(t) == d
}

impl FullConsignment {
    /// Whether an endpoint names the bundle id `id`.
    pub fn is_endpoint_bundle_id(&self, id: &BundleId) -> (r: bool)
        ensures
            r == endpoint_bundle_set(*self).contains(id.bytes@),
    {
        let mut i: usize = 0;
        while i < self.endpoints.len()
            invariant
                i <= self.endpoints@.len(),
                forall|k: int| 0 <= k < i ==> (#[trigger] self.endpoints@[k]).0.bytes@ != id.bytes@,
            decreases self.endpoints@.len() - i,
        {
            if digest_eq(&self.endpoints[i].0, id) {
                assert(endpoint_bundle_set(*self).contains(id.bytes@));
                return true;
            }
            i = i + 1;
        }
        false
    }

    /// The first anchored bundle with id `id`.
    pub fn bundle_by_id(&self, id: BundleId) -> (r: Result<&TransitionBundle, ConsistencyError>)
        ensures
            r is Ok <==> has_bundle(*self, id.bytes@),
            r matches Ok(b) ==> *b == self.anchored_bundles@[first_index(*self, id.bytes@)].1 && is_first(*self, id.bytes@, first_index(*self, id.bytes@)),
            r matches Err(e) ==> e == ConsistencyError::BundleAbsent(id),
    {
        let mut i: usize = 0;
        while i < self.anchored_bundles.len()
            invariant
                i <= self.anchored_bundles@.len(),
                forall|k: int| 0 <= k < i ==> bundle_id(#[trigger] self.anchored_bundles@[k].1) != id.bytes@,
            decreases self.anchored_bundles@.len() - i,
        {
            let bid = self.anchored_bundles[i].1.bundle_id();
            if digest_eq(&bid, &id) {
                proof {
                    lemma_first_unique(*self, id.bytes@, i as int);
                }
                return Ok(&self.anchored_bundles[i].1);
            }
            i = i + 1;
        }
        Err(ConsistencyError::BundleAbsent(id))
    }

    /// The transition with id `id`, with the id of its bundle's witness
    /// transaction.
    pub fn transition_witness_by_id(&self, id: NodeId) -> (r: Result<(&Transition, Txid), ConsistencyError>)
        ensures
            r is Ok <==> is_transition(*self, id.bytes@),
            r matches Ok((t, txid)) ==> exists|i: int| transition_at(*self, i, *t, id.bytes@) && (#[trigger] self.anchored_bundles@[i]).0.txid == txid,
            r matches Err(e) ==> e == ConsistencyError::TransitionAbsent(id),
    {
        let mut i: usize = 0;
        while i < self.anchored_bundles.len()
            invariant
                i <= self.anchored_bundles@.len(),
                forall|k: int| 0 <= k < i ==> !(#[trigger] in_bundle(*self, k, id.bytes@)),
            decreases self.anchored_bundles@.len() - i,
        {
            let bundle = &self.anchored_bundles[i].1;
            let mut j: usize = 0;
            while j < bundle.items.len()
                invariant
                    i < self.anchored_bundles@.len(),
                    *bundle == self.anchored_bundles@[i as int].1,
                    j <= bundle.items@.len(),
                    forall|k: int| 0 <= k < j ==> transition_id((#[trigger] bundle.items@[k]).transition) != id.bytes@,
                decreases bundle.items@.len() - j,
            {
                let nid = bundle.items[j].transition.node_id();
                if digest_eq(&nid, &id) {
                    assert(in_bundle(*self, i as int, id.bytes@));
                    let txid = self.anchored_bundles[i].0.txid;
                    assert(transition_at(*self, i as int, bundle.items@[j as int].transition, id.bytes@)
                        && self.anchored_bundles@[i as int].0.txid == txid);
                    return Ok((&bundle.items[j].transition, txid));
                }
                j = j + 1;
            }
            i = i + 1;
        }
        Err(ConsistencyError::TransitionAbsent(id))
    }

    /// The transition with id `id`.
    pub fn transition_by_id(&self, id: NodeId) -> (r: Result<&Transition, ConsistencyError>)
        ensures
            r is Ok <==> is_transition(*self, id.bytes@),
            r matches Ok(t) ==> exists|i: int| transition_at(*self, i, *t, id.bytes@) && (#[trigger] self.anchored_bundles@[i]).1.items@.len() > 0,
            r matches Err(e) ==> e == ConsistencyError::TransitionAbsent(id),
    {
        match self.transition_witness_by_id(id) {
            Ok(found) => {
                let t = found.0;
                Ok(t)
            },
            Err(e) => Err(e),
        }
    }

    /// The transition with id `node_id` in a bundle that an endpoint names,
    /// with that bundle's witness transaction id; `NotEndpoint` if no
    /// endpoint bundle holds it.
    #[verifier::rlimit(40)]
    pub fn endpoint_witness_by_id(&self, node_id: NodeId) -> (r: Result<(&Transition, Txid), ConsistencyError>)
        ensures
            r is Ok <==> is_endpoint_node(*self, node_id.bytes@),
            r matches Ok((t, txid)) ==> exists|i: int| transition_at(*self, i, *t, node_id.bytes@) && #[trigger] is_endpoint_bundle(*self, i)
                && self.anchored_bundles@[i].0.txid == txid,
            r matches Err(e) ==> e == ConsistencyError::NotEndpoint(node_id),
    {
        let mut i: usize = 0;
        while i < self.anchored_bundles.len()
            invariant
                i <= self.anchored_bundles@.len(),
                forall|k: int| 0 <= k < i ==> !(#[trigger] is_endpoint_bundle(*self, k) && in_bundle(*self, k, node_id.bytes@)),
            decreases self.anchored_bundles@.len() - i,
        {
            let bundle = &self.anchored_bundles[i].1;
            let bid = bundle.bundle_id();
            if self.is_endpoint_bundle_id(&bid) {
                let mut j: usize = 0;
                while j < bundle.items.len()
                    invariant
                        i < self.anchored_bundles@.len(),
                        *bundle == self.anchored_bundles@[i as int].1,
                        is_endpoint_bundle(*self, i as int),
                        j <= bundle.items@.len(),
                        forall|k: int| 0 <= k < j ==> transition_id((#[trigger] bundle.items@[k]).transition) != node_id.bytes@,
                    decreases bundle.items@.len() - j,
                {
                    let nid = bundle.items[j].transition.node_id();
                    if digest_eq(&nid, &node_id) {
                        assert(in_bundle(*self, i as int, node_id.bytes@));
                        let txid = self.anchored_bundles[i].0.txid;
                        assert(transition_at(*self, i as int, bundle.items@[j as int].transition, node_id.bytes@)
                            && self.anchored_bundles@[i as int].0.txid == txid);
                        return Ok((&bundle.items[j].transition, txid));
                    }
                    j = j + 1;
                }
            }
            i = i + 1;
        }
        Err(ConsistencyError::NotEndpoint(node_id))
    }

    /// The transition with id `node_id`, provided it belongs to a bundle that
    /// an endpoint names; `NotEndpoint` otherwise.
    pub fn endpoint_transition_by_id(&self, node_id: NodeId) -> (r: Result<&Transition, ConsistencyError>)
        ensures
            r is Ok <==> is_endpoint_node(*self, node_id.bytes@),
            r matches Ok(t) ==> exists|i: int| transition_at(*self, i, *t, node_id.bytes@) && #[trigger] is_endpoint_bundle(*self, i),
            r matches Err(e) ==> e == ConsistencyError::NotEndpoint(node_id),
    {
        match self.endpoint_witness_by_id(node_id) {
            Ok(found) => Ok(found.0),
            Err(e) => Err(e),
        }
    }
}

impl FullConsignment {
    /// The bundle of each distinct endpoint bundle id, by ascending id,
    /// taking the first bundle anchored with that id. An endpoint naming a bundle that is not there is a
    /// consistency error.
    pub fn endpoint_bundles(&self) -> (r: Result<Vec<&TransitionBundle>, ConsistencyError>)
        ensures
            r is Ok <==> forall|k: int| 0 <= k < endpoint_ids(*self).len() ==> has_bundle(*self, (#[trigger] endpoint_ids(*self)[k]).bytes@),
            r matches Ok(v) ==> v@.len() == endpoint_ids(*self).len() && forall|k: int| 0 <= k < v@.len()
                ==> *(#[trigger] v@[k]) == self.anchored_bundles@[first_index(*self, endpoint_ids(*self)[k].bytes@)].1,
            r matches Err(e) ==> exists|k: int| 0 <= k < endpoint_ids(*self).len() && e == ConsistencyError::BundleAbsent(#[trigger] endpoint_ids(*self)[k])
                && !has_bundle(*self, endpoint_ids(*self)[k].bytes@),
    {
        let ids = self.endpoint_bundle_ids();
        let mut r: Vec<&TransitionBundle> = Vec::new();
        let mut k: usize = 0;
        while k < ids.len()
            invariant
                ids@ == endpoint_ids(*self),
                k <= ids@.len(),
                r@.len() == k,
                forall|j: int| 0 <= j < k ==> has_bundle(*self, (#[trigger] ids@[j]).bytes@),
                forall|j: int| 0 <= j < k ==> *(#[trigger] r@[j]) == self.anchored_bundles@[first_index(*self, ids@[j].bytes@)].1,
            decreases ids@.len() - k,
        {
            match self.bundle_by_id(ids[k]) {
                Ok(b) => {
                    r.push(b);
                },
                Err(e) => {
                    return Err(e);
                },
            }
            k = k + 1;
        }
        Ok(r)
    }

    /// The transitions whose type is among `types` of the bundles that the
    /// endpoints name: each distinct endpoint bundle id once, by ascending
    /// id, taking the first bundle anchored with that id.
    pub fn endpoint_transitions_by_types(&self, types: &Vec<u16>) -> (r: Vec<&Transition>)
        ensures
            r@.len() == endpoint_transitions_seq(*self, types@, endpoint_ids(*self).len() as int).len(),
            forall|k: int| 0 <= k < r@.len() ==> *(#[trigger] r@[k]) == endpoint_transitions_seq(*self, types@, endpoint_ids(*self).len() as int)[k],
    {
        let ids = self.endpoint_bundle_ids();
        let mut r: Vec<&Transition> = Vec::new();
        let mut i: usize = 0;
        while i < ids.len()
            invariant
                ids@ == endpoint_ids(*self),
                i <= ids@.len(),
                r@.len() == endpoint_transitions_seq(*self, types@, i as int).len(),
                forall|k: int| 0 <= k < r@.len() ==> *(#[trigger] r@[k]) == endpoint_transitions_seq(*self, types@, i as int)[k],
            decreases ids@.len() - i,
        {
            match self.bundle_by_id(ids[i]) {
                Ok(bundle) => {
                    let ghost base = endpoint_transitions_seq(*self, types@, i as int);
                    let mut j: usize = 0;
                    while j < bundle.items.len()
                        invariant
                            j <= bundle.items@.len(),
                            r@.len() == base.len() + transitions_of_types(bundle.items@.subrange(0, j as int), types@).len(),
                            forall|k: int| 0 <= k < r@.len() ==> *(#[trigger] r@[k]) == (base + transitions_of_types(bundle.items@.subrange(0, j as int), types@))[k],
                        decreases bundle.items@.len() - j,
                    {
                        proof {
                            assert(bundle.items@.subrange(0, j + 1).drop_last() =~= bundle.items@.subrange(0, j as int));
                        }
                        if contains_u16(types, bundle.items[j].transition.transition_type) {
                            r.push(&bundle.items[j].transition);
                        }
                        j = j + 1;
                    }
                    assert(bundle.items@.subrange(0, bundle.items@.len() as int) =~= bundle.items@);
                },
                Err(_) => {},
            }
            i = i + 1;
        }
        r
    }

    /// The transitions of endpoint bundles of type `transition_type`.
    pub fn endpoint_transitions_by_type(&self, transition_type: u16) -> (r: Vec<&Transition>)
        ensures
            r@.len() == endpoint_transitions_seq(*self, seq![transition_type], endpoint_ids(*self).len() as int).len(),
            forall|k: int| 0 <= k < r@.len() ==> *(#[trigger] r@[k]) == endpoint_transitions_seq(*self, seq![transition_type], endpoint_ids(*self).len() as int)[k],
    {
        let types: Vec<u16> = vec![transition_type];
        assert(types@ =~= seq![transition_type]);
        self.endpoint_transitions_by_types(&types)
    }
}

/// Whether `x` occurs in `v`.
pub(crate) fn contains_u16(v: &Vec<u16>, x: u16) -> (r: bool)
    ensures
        r == v@.contains(x),
{
    let mut i: usize = 0;
    while i < v.len()
        invariant
            i <= v@.len(),
            forall|k: int| 0 <= k < i ==> v@[k] != x,
        decreases v@.len() - i,
    {
        if v[i] == x {
            assert(v@[i as int] == x);
            return true;
        }
        i = i + 1;
    }
    false
}

/// Whether two terminal seals are the same.
fn terminal_seal_eq(a: &TerminalSeal, b: &TerminalSeal) -> (r: bool)
    ensures
        r == (*a == *b),
{
    match (a, b) {
        (TerminalSeal::ConcealedUtxo(x), TerminalSeal::ConcealedUtxo(y)) => digest_eq(&x.0, &y.0),
        (TerminalSeal::WitnessVout(x), TerminalSeal::WitnessVout(y)) => *x == *y,
        _ => false,
    }
}

/// Whether `seals` holds `s`.
fn contains_terminal_seal(seals: &Vec<TerminalSeal>, s: &TerminalSeal) -> (r: bool)
    ensures
        r == seals@.contains(*s),
{
    let mut i: usize = 0;
    while i < seals.len()
        invariant
            i <= seals@.len(),
            forall|k: int| 0 <= k < i ==> seals@[k] != *s,
        decreases seals@.len() - i,
    {
        if terminal_seal_eq(&seals[i], s) {
            assert(seals@[i as int] == *s);
            return true;
        }
        i = i + 1;
    }
    false
}

/// Digests of the concealed forms of the exposed seals.
pub open spec fn expose_digests(expose: Seq<TerminalSeal>) -> Set<Seq<u8>> {
    Set::new(|d: Seq<u8>| exists|i: int| 0 <= i < expose.len() && terminal_seal_digest(#[trigger] expose[i]) == d)
}

/// The endpoints whose seal is exposed, in order.
pub open spec fn kept_endpoints(eps: Seq<(BundleId, TerminalSeal)>, expose: Seq<TerminalSeal>) -> Seq<(BundleId, TerminalSeal)>
    decreases eps.len(),
{
    if eps.len() == 0 {
        seq![]
    } else if expose.contains(eps.last().1) {
        kept_endpoints(eps.drop_last(), expose).push(eps.last())
    } else {
        kept_endpoints(eps.drop_last(), expose)
    }
}

/// Digests of the concealed forms of the seals of dropped endpoints.
pub open spec fn removed_digests(eps: Seq<(BundleId, TerminalSeal)>, expose: Seq<TerminalSeal>) -> Set<Seq<u8>> {
    Set::new(|d: Seq<u8>| exists|i: int| 0 <= i < eps.len() && !expose.contains((#[trigger] eps[i]).1) && terminal_seal_digest(eps[i].1) == d)
}

pub open spec fn bundle_total() -> spec_fn((Anchor, TransitionBundle)) -> nat {
    |ab: (Anchor, TransitionBundle)| bundle_assignments(ab.1.items@)
}

pub open spec fn extension_total() -> spec_fn(Extension) -> nat {
    |e: Extension| assignment_total(e.owned_rights@)
}

/// Number of assignments of every transition and extension.
pub open spec fn consignment_assignments(c: FullConsignment) -> nat {
    sum_seq(c.anchored_bundles@, bundle_total()) + sum_seq(c.state_extensions@, extension_total())
}

pub open spec fn bundle_finalize_hits(keep: Set<Seq<u8>>, hidden: Set<Seq<u8>>) -> spec_fn((Anchor, TransitionBundle)) -> nat {
    |ab: (Anchor, TransitionBundle)| sum_seq(ab.1.items@, item_finalize_hits(keep, hidden))
}

pub open spec fn extension_hits(p: PassSpec) -> spec_fn(Extension) -> nat {
    |e: Extension| rights_hits(p, e.owned_rights@)
}

/// What finalization makes of an extension.
pub open spec fn extension_result(p: PassSpec, e1: Extension, e2: Extension) -> bool {
    &&& e2.extension_type == e1.extension_type
    &&& e2.contract_id == e1.contract_id
    &&& e2.metadata == e1.metadata
    &&& rights_result(p, e1.owned_rights@, e2.owned_rights@)
}

/// Number of concealments that finalizing `c` for `expose` makes.
pub open spec fn finalize_count(c: FullConsignment, expose: Seq<TerminalSeal>) -> nat {
    let keep = expose_digests(expose);
    let hidden = removed_digests(c.endpoints@, expose);
    sum_seq(c.anchored_bundles@, bundle_finalize_hits(keep, hidden)) + sum_seq(
        c.state_extensions@,
        extension_hits(PassSpec::ConcealStateExcept(keep)),
    )
}

/// What finalizing `c1` for `expose` makes of it: `c2`.
pub open spec fn finalized(c1: FullConsignment, expose: Seq<TerminalSeal>, c2: FullConsignment) -> bool {
    let keep = expose_digests(expose);
    let hidden = removed_digests(c1.endpoints@, expose);
    &&& c2.version == c1.version
    &&& c2.schema == c1.schema
    &&& c2.genesis == c1.genesis
    &&& c2.endpoints@ == kept_endpoints(c1.endpoints@, expose)
    &&& c2.anchored_bundles@.len() == c1.anchored_bundles@.len()
    &&& forall|i: int| 0 <= i < c1.anchored_bundles@.len() ==> {
        &&& (#[trigger] c2.anchored_bundles@[i]).0 == c1.anchored_bundles@[i].0
        &&& items_finalized(keep, hidden, c1.anchored_bundles@[i].1.items@, c2.anchored_bundles@[i].1.items@)
    }
    &&& c2.state_extensions@.len() == c1.state_extensions@.len()
    &&& forall|i: int| 0 <= i < c1.state_extensions@.len() ==> extension_result(
        PassSpec::ConcealStateExcept(keep),
        #[trigger] c1.state_extensions@[i],
        c2.state_extensions@[i],
    )
}

/// What revealing `known` in `c1` makes of it: `c2`.
pub open spec fn revealed(c1: FullConsignment, known: Seq<GraphSeal>, c2: FullConsignment) -> bool {
    let p = PassSpec::RevealSeals(known);
    &&& c2.version == c1.version
    &&& c2.schema == c1.schema
    &&& c2.genesis == c1.genesis
    &&& c2.endpoints == c1.endpoints
    &&& c2.anchored_bundles@.len() == c1.anchored_bundles@.len()
    &&& forall|i: int| 0 <= i < c1.anchored_bundles@.len() ==> {
        &&& (#[trigger] c2.anchored_bundles@[i]).0 == c1.anchored_bundles@[i].0
        &&& items_result(p, c1.anchored_bundles@[i].1.items@, c2.anchored_bundles@[i].1.items@)
    }
    &&& c2.state_extensions@.len() == c1.state_extensions@.len()
    &&& forall|i: int| 0 <= i < c1.state_extensions@.len() ==> extension_result(p, #[trigger] c1.state_extensions@[i], c2.state_extensions@[i])
}

pub open spec fn bundle_hits(p: PassSpec) -> spec_fn((Anchor, TransitionBundle)) -> nat {
    |ab: (Anchor, TransitionBundle)| items_hits(p, ab.1.items@)
}

/// Number of seals that revealing `known` in `c` reveals.
pub open spec fn reveal_count(c: FullConsignment, known: Seq<GraphSeal>) -> nat {
    let p = PassSpec::RevealSeals(known);
    sum_seq(c.anchored_bundles@, bundle_hits(p)) + sum_seq(c.state_extensions@, extension_hits(p))
}

impl FullConsignment {
    /// Conceals what the recipient of `expose` is not to see: endpoints
    /// whose seal is not exposed are dropped and their seals concealed, and
    /// state assigned to seals other than the exposed ones is concealed.
    /// Returns the number of concealments made.
    pub fn finalize(&mut self, expose: &Vec<TerminalSeal>) -> (count: usize)
        requires
            2 * consignment_assignments(*old(self)) <= usize::MAX,
        ensures
            finalized(*old(self), expose@, *final(self)),
            count == finalize_count(*old(self), expose@),
    {
        let ghost c0 = *self;
        let mut keep: Vec<SecretSeal> = Vec::new();
        let mut i: usize = 0;
        while i < expose.len()
            invariant
                i <= expose@.len(),
                keep@.len() == i,
                forall|k: int| 0 <= k < i ==> (#[trigger] keep@[k]).0.bytes@ == terminal_seal_digest(expose@[k]),
            decreases expose@.len() - i,
        {
            keep.push(expose[i].conceal());
            i = i + 1;
        }
        assert(digest_set(keep@) =~= expose_digests(expose@)) by {
            assert forall|d: Seq<u8>| digest_set(keep@).contains(d) implies expose_digests(expose@).contains(d) by {
                let k = choose|k: int| 0 <= k < keep@.len() && (#[trigger] keep@[k]).0.bytes@ == d;
                assert(terminal_seal_digest(expose@[k]) == d);
            }
            assert forall|d: Seq<u8>| expose_digests(expose@).contains(d) implies digest_set(keep@).contains(d) by {
                let k = choose|k: int| 0 <= k < expose@.len() && terminal_seal_digest(#[trigger] expose@[k]) == d;
                assert(keep@[k].0.bytes@ == d);
            }
        }

        let mut kept: Vec<(BundleId, TerminalSeal)> = Vec::new();
        let mut hidden: Vec<SecretSeal> = Vec::new();
        let mut j: usize = 0;
        while j < self.endpoints.len()
            invariant
                *self == c0,
                j <= c0.endpoints@.len(),
                kept@ == kept_endpoints(c0.endpoints@.subrange(0, j as int), expose@),
                digest_set(hidden@) == removed_digests(c0.endpoints@.subrange(0, j as int), expose@),
            decreases c0.endpoints@.len() - j,
        {
            let ghost pre = c0.endpoints@.subrange(0, j as int);
            let ghost next = c0.endpoints@.subrange(0, j + 1);
            assert(next.drop_last() =~= pre);
            let e = self.endpoints[j];
            if contains_terminal_seal(expose, &e.1) {
                kept.push(e);
                assert(digest_set(hidden@) =~= removed_digests(next, expose@)) by {
                    assert forall|d: Seq<u8>| removed_digests(next, expose@).contains(d) implies removed_digests(pre, expose@).contains(d) by {
                        let k = choose|k: int| 0 <= k < next.len() && !expose@.contains((#[trigger] next[k]).1) && terminal_seal_digest(next[k].1) == d;
                        assert(pre[k] == next[k]);
                    }
                    assert forall|d: Seq<u8>| removed_digests(pre, expose@).contains(d) implies removed_digests(next, expose@).contains(d) by {
                        let k = choose|k: int| 0 <= k < pre.len() && !expose@.contains((#[trigger] pre[k]).1) && terminal_seal_digest(pre[k].1) == d;
                        assert(pre[k] == next[k]);
                    }
                }
            } else {
                let ghost hidden0 = hidden@;
                let sealed = e.1;
                hidden.push(sealed.conceal());
                assert(digest_set(hidden@) =~= removed_digests(next, expose@)) by {
                    assert forall|d: Seq<u8>| removed_digests(next, expose@).contains(d) implies digest_set(hidden@).contains(d) by {
                        let k = choose|k: int| 0 <= k < next.len() && !expose@.contains((#[trigger] next[k]).1) && terminal_seal_digest(next[k].1) == d;
                        if k < pre.len() {
                            assert(pre[k] == next[k]);
                            assert(removed_digests(pre, expose@).contains(d));
                            let m = choose|m: int| 0 <= m < hidden0.len() && (#[trigger] hidden0[m]).0.bytes@ == d;
                            assert(hidden@[m] == hidden0[m]);
                        } else {
                            assert(hidden@[hidden0.len() as int].0.bytes@ == d);
                        }
                    }
                    assert forall|d: Seq<u8>| digest_set(hidden@).contains(d) implies removed_digests(next, expose@).contains(d) by {
                        let m = choose|m: int| 0 <= m < hidden@.len() && (#[trigger] hidden@[m]).0.bytes@ == d;
                        if m < hidden0.len() {
                            assert(hidden@[m] == hidden0[m]);
                            assert(digest_set(hidden0).contains(d));
                            let k = choose|k: int| 0 <= k < pre.len() && !expose@.contains((#[trigger] pre[k]).1) && terminal_seal_digest(pre[k].1) == d;
                            assert(pre[k] == next[k]);
                        } else {
                            assert(next[j as int] == e);
                        }
                    }
                }
            }
            j = j + 1;
        }
        assert(c0.endpoints@.subrange(0, c0.endpoints@.len() as int) =~= c0.endpoints@);
        self.endpoints = kept;
        let ghost keep_s = digest_set(keep@);
        let ghost hidden_s = digest_set(hidden@);

        let mut count: usize = 0;
        let mut b: usize = 0;
        while b < self.anchored_bundles.len()
            invariant
                self.version == c0.version,
                self.endpoints@ == kept_endpoints(c0.endpoints@, expose@),
                self.schema == c0.schema,
                self.genesis == c0.genesis,
                self.state_extensions == c0.state_extensions,
                keep_s == digest_set(keep@),
                hidden_s == digest_set(hidden@),
                2 * consignment_assignments(c0) <= usize::MAX,
                self.anchored_bundles@.len() == c0.anchored_bundles@.len(),
                b <= c0.anchored_bundles@.len(),
                forall|k: int| 0 <= k < b ==> {
                    &&& (#[trigger] self.anchored_bundles@[k]).0 == c0.anchored_bundles@[k].0
                    &&& items_finalized(keep_s, hidden_s, c0.anchored_bundles@[k].1.items@, self.anchored_bundles@[k].1.items@)
                },
                forall|k: int| b <= k < c0.anchored_bundles@.len() ==> #[trigger] self.anchored_bundles@[k] == c0.anchored_bundles@[k],
                count == sum_seq(c0.anchored_bundles@.subrange(0, b as int), bundle_finalize_hits(keep_s, hidden_s)),
                count <= 2 * sum_seq(c0.anchored_bundles@.subrange(0, b as int), bundle_total()),
            decreases c0.anchored_bundles@.len() - b,
        {
            proof {
                lemma_sum_seq_step(c0.anchored_bundles@, b as int, bundle_finalize_hits(keep_s, hidden_s));
                lemma_sum_seq_step(c0.anchored_bundles@, b as int, bundle_total());
                lemma_sum_prefix_le(c0.anchored_bundles@, b as int + 1, bundle_total());
            }
            let n = finalize_items(&mut self.anchored_bundles[b].1.items, &keep, &hidden);
            count = count + n;
            b = b + 1;
        }
        assert(c0.anchored_bundles@.subrange(0, c0.anchored_bundles@.len() as int) =~= c0.anchored_bundles@);

        let mut x: usize = 0;
        while x < self.state_extensions.len()
            invariant
                self.version == c0.version,
                self.endpoints@ == kept_endpoints(c0.endpoints@, expose@),
                self.schema == c0.schema,
                self.genesis == c0.genesis,
                keep_s == digest_set(keep@),
                hidden_s == digest_set(hidden@),
                2 * consignment_assignments(c0) <= usize::MAX,
                self.anchored_bundles@.len() == c0.anchored_bundles@.len(),
                forall|k: int| 0 <= k < c0.anchored_bundles@.len() ==> {
                    &&& (#[trigger] self.anchored_bundles@[k]).0 == c0.anchored_bundles@[k].0
                    &&& items_finalized(keep_s, hidden_s, c0.anchored_bundles@[k].1.items@, self.anchored_bundles@[k].1.items@)
                },
                self.state_extensions@.len() == c0.state_extensions@.len(),
                x <= c0.state_extensions@.len(),
                forall|k: int| 0 <= k < x ==> extension_result(PassSpec::ConcealStateExcept(keep_s), #[trigger] c0.state_extensions@[k], self.state_extensions@[k]),
                forall|k: int| x <= k < c0.state_extensions@.len() ==> #[trigger] self.state_extensions@[k] == c0.state_extensions@[k],
                count == sum_seq(c0.anchored_bundles@, bundle_finalize_hits(keep_s, hidden_s))
                    + sum_seq(c0.state_extensions@.subrange(0, x as int), extension_hits(PassSpec::ConcealStateExcept(keep_s))),
                count <= 2 * sum_seq(c0.anchored_bundles@, bundle_total())
                    + sum_seq(c0.state_extensions@.subrange(0, x as int), extension_total()),
            decreases c0.state_extensions@.len() - x,
        {
            proof {
                lemma_sum_seq_step(c0.state_extensions@, x as int, extension_hits(PassSpec::ConcealStateExcept(keep_s)));
                lemma_sum_seq_step(c0.state_extensions@, x as int, extension_total());
                lemma_sum_prefix_le(c0.state_extensions@, x as int + 1, extension_total());
                crate::node::lemma_hits_le_len_total(PassSpec::ConcealStateExcept(keep_s), c0.state_extensions@[x as int].owned_rights@);
            }
            let n = apply_pass_rights(&mut self.state_extensions[x].owned_rights, &Pass::ConcealStateExcept(&keep));
            count = count + n;
            x = x + 1;
        }
        assert(c0.state_extensions@.subrange(0, c0.state_extensions@.len() as int) =~= c0.state_extensions@);
        count
    }

    /// Reveals every concealed seal of every transition and extension whose
    /// preimage is among `known`; returns the number of seals revealed.
    pub fn reveal_seals(&mut self, known: &Vec<GraphSeal>) -> (count: usize)
        requires
            consignment_assignments(*old(self)) <= usize::MAX,
        ensures
            revealed(*old(self), known@, *final(self)),
            count == reveal_count(*old(self), known@),
    {
        let ghost c0 = *self;
        let ghost p = PassSpec::RevealSeals(known@);
        let pass = Pass::RevealSeals(known);
        assert(pass_spec(pass) == p);
        let mut count: usize = 0;
        let mut b: usize = 0;
        while b < self.anchored_bundles.len()
            invariant
                self.version == c0.version,
                self.endpoints == c0.endpoints,
                self.schema == c0.schema,
                self.genesis == c0.genesis,
                self.state_extensions == c0.state_extensions,
                pass_spec(pass) == p,
                p == PassSpec::RevealSeals(known@),
                consignment_assignments(c0) <= usize::MAX,
                self.anchored_bundles@.len() == c0.anchored_bundles@.len(),
                b <= c0.anchored_bundles@.len(),
                forall|k: int| 0 <= k < b ==> {
                    &&& (#[trigger] self.anchored_bundles@[k]).0 == c0.anchored_bundles@[k].0
                    &&& items_result(p, c0.anchored_bundles@[k].1.items@, self.anchored_bundles@[k].1.items@)
                },
                forall|k: int| b <= k < c0.anchored_bundles@.len() ==> #[trigger] self.anchored_bundles@[k] == c0.anchored_bundles@[k],
                count == sum_seq(c0.anchored_bundles@.subrange(0, b as int), bundle_hits(p)),
                count <= sum_seq(c0.anchored_bundles@.subrange(0, b as int), bundle_total()),
            decreases c0.anchored_bundles@.len() - b,
        {
            proof {
                lemma_sum_seq_step(c0.anchored_bundles@, b as int, bundle_hits(p));
                lemma_sum_seq_step(c0.anchored_bundles@, b as int, bundle_total());
                lemma_sum_prefix_le(c0.anchored_bundles@, b as int + 1, bundle_total());
            }
            let n = apply_pass_items(&mut self.anchored_bundles[b].1.items, &pass);
            count = count + n;
            b = b + 1;
        }
        assert(c0.anchored_bundles@.subrange(0, c0.anchored_bundles@.len() as int) =~= c0.anchored_bundles@);
        let mut x: usize = 0;
        while x < self.state_extensions.len()
            invariant
                self.version == c0.version,
                self.endpoints == c0.endpoints,
                self.schema == c0.schema,
                self.genesis == c0.genesis,
                pass_spec(pass) == p,
                p == PassSpec::RevealSeals(known@),
                consignment_assignments(c0) <= usize::MAX,
                self.anchored_bundles@.len() == c0.anchored_bundles@.len(),
                forall|k: int| 0 <= k < c0.anchored_bundles@.len() ==> {
                    &&& (#[trigger] self.anchored_bundles@[k]).0 == c0.anchored_bundles@[k].0
                    &&& items_result(p, c0.anchored_bundles@[k].1.items@, self.anchored_bundles@[k].1.items@)
                },
                self.state_extensions@.len() == c0.state_extensions@.len(),
                x <= c0.state_extensions@.len(),
                forall|k: int| 0 <= k < x ==> extension_result(p, #[trigger] c0.state_extensions@[k], self.state_extensions@[k]),
                forall|k: int| x <= k < c0.state_extensions@.len() ==> #[trigger] self.state_extensions@[k] == c0.state_extensions@[k],
                count == sum_seq(c0.anchored_bundles@, bundle_hits(p))
                    + sum_seq(c0.state_extensions@.subrange(0, x as int), extension_hits(p)),
                count <= sum_seq(c0.anchored_bundles@, bundle_total())
                    + sum_seq(c0.state_extensions@.subrange(0, x as int), extension_total()),
            decreases c0.state_extensions@.len() - x,
        {
            proof {
                lemma_sum_seq_step(c0.state_extensions@, x as int, extension_hits(p));
                lemma_sum_seq_step(c0.state_extensions@, x as int, extension_total());
                lemma_sum_prefix_le(c0.state_extensions@, x as int + 1, extension_total());
                crate::node::lemma_hits_le_len_total(p, c0.state_extensions@[x as int].owned_rights@);
            }
            let n = apply_pass_rights(&mut self.state_extensions[x].owned_rights, &pass);
            count = count + n;
            x = x + 1;
        }
        assert(c0.state_extensions@.subrange(0, c0.state_extensions@.len() as int) =~= c0.state_extensions@);
        count
    }
}

/// Every kept endpoint has an exposed seal.
proof fn lemma_kept_exposed(eps: Seq<(BundleId, TerminalSeal)>, expose: Seq<TerminalSeal>)
    ensures
        forall|i: int| 0 <= i < kept_endpoints(eps, expose).len() ==> expose.contains((#[trigger] kept_endpoints(eps, expose)[i]).1),
    decreases eps.len(),
{
    if eps.len() > 0 {
        lemma_kept_exposed(eps.drop_last(), expose);
        let k0 = kept_endpoints(eps.drop_last(), expose);
        let k1 = kept_endpoints(eps, expose);
        assert forall|i: int| 0 <= i < k1.len() implies expose.contains((#[trigger] k1[i]).1) by {
            if i < k0.len() {
                assert(k1[i] == k0[i]);
            }
        }
    }
}

/// Finalization keeps the number and order of anchored bundles, their
/// anchors and ids, and the id of every node: concealment hides payloads,
/// it never removes or reorders anything.
#[verifier::rlimit(60)]
pub proof fn lemma_finalize_keeps_shape(c1: FullConsignment, expose: Seq<TerminalSeal>, c2: FullConsignment)
    requires
        finalized(c1, expose, c2),
    ensures
        c2.anchored_bundles@.len() == c1.anchored_bundles@.len(),
        forall|i: int| 0 <= i < c1.anchored_bundles@.len() ==> (#[trigger] c2.anchored_bundles@[i]).0 == c1.anchored_bundles@[i].0
            && bundle_id(c2.anchored_bundles@[i].1) == bundle_id(c1.anchored_bundles@[i].1),
        node_set(c2) == node_set(c1),
{
    let keep = expose_digests(expose);
    let hidden = removed_digests(c1.endpoints@, expose);
    assert forall|i: int| 0 <= i < c1.anchored_bundles@.len() implies bundle_id(#[trigger] c2.anchored_bundles@[i].1) == bundle_id(c1.anchored_bundles@[i].1)
        && (forall|j: int| 0 <= j < c1.anchored_bundles@[i].1.items@.len() ==> transition_id((#[trigger] c1.anchored_bundles@[i].1.items@[j]).transition)
            == transition_id(c2.anchored_bundles@[i].1.items@[j].transition)) by {
        lemma_finalize_keeps_bundle_id(keep, hidden, c1.anchored_bundles@[i].1, c2.anchored_bundles@[i].1);
    }
    assert forall|i: int| 0 <= i < c1.state_extensions@.len() implies extension_id(#[trigger] c1.state_extensions@[i]) == extension_id(c2.state_extensions@[i]) by {
        assert(extension_result(PassSpec::ConcealStateExcept(keep), c1.state_extensions@[i], c2.state_extensions@[i]));
        lemma_pass_keeps_extension_id(PassSpec::ConcealStateExcept(keep), c1.state_extensions@[i], c2.state_extensions@[i]);
    }
    assert forall|i: int, d: Seq<u8>| 0 <= i < c1.anchored_bundles@.len() implies #[trigger] in_bundle(c1, i, d) == in_bundle(c2, i, d) by {
        assert(items_finalized(keep, hidden, c1.anchored_bundles@[i].1.items@, c2.anchored_bundles@[i].1.items@));
        if in_bundle(c1, i, d) {
            let j = choose|j: int| 0 <= j < c1.anchored_bundles@[i].1.items@.len() && transition_id((#[trigger] c1.anchored_bundles@[i].1.items@[j]).transition) == d;
            assert(transition_id(c2.anchored_bundles@[i].1.items@[j].transition) == d);
        }
        if in_bundle(c2, i, d) {
            let j = choose|j: int| 0 <= j < c2.anchored_bundles@[i].1.items@.len() && transition_id((#[trigger] c2.anchored_bundles@[i].1.items@[j]).transition) == d;
            assert(transition_id(c1.anchored_bundles@[i].1.items@[j].transition) == d);
        }
    }
    assert forall|d: Seq<u8>| #[trigger] node_set(c2).contains(d) == node_set(c1).contains(d) by {
        if is_transition(c1, d) {
            let i = choose|i: int| 0 <= i < c1.anchored_bundles@.len() && #[trigger] in_bundle(c1, i, d);
            assert(in_bundle(c2, i, d));
        }
        if is_transition(c2, d) {
            let i = choose|i: int| 0 <= i < c2.anchored_bundles@.len() && #[trigger] in_bundle(c2, i, d);
            assert(in_bundle(c1, i, d));
        }
        if exists|k: int| 0 <= k < c1.state_extensions@.len() && extension_id(#[trigger] c1.state_extensions@[k]) == d {
            let k = choose|k: int| 0 <= k < c1.state_extensions@.len() && extension_id(#[trigger] c1.state_extensions@[k]) == d;
            assert(extension_id(c2.state_extensions@[k]) == d);
        }
        if exists|k: int| 0 <= k < c2.state_extensions@.len() && extension_id(#[trigger] c2.state_extensions@[k]) == d {
            let k = choose|k: int| 0 <= k < c2.state_extensions@.len() && extension_id(#[trigger] c2.state_extensions@[k]) == d;
            assert(extension_id(c1.state_extensions@[k]) == d);
        }
    }
    assert(node_set(c2) =~= node_set(c1));
}

/// Finalizing a second time with the same exposed seals conceals nothing.
pub proof fn lemma_finalize_idempotent(c1: FullConsignment, expose: Seq<TerminalSeal>, c2: FullConsignment)
    requires
        finalized(c1, expose, c2),
    ensures
        finalize_count(c2, expose) == 0,
{
    let keep = expose_digests(expose);
    let hidden = removed_digests(c1.endpoints@, expose);
    lemma_kept_exposed(c1.endpoints@, expose);
    assert(removed_digests(c2.endpoints@, expose) =~= Set::<Seq<u8>>::empty()) by {
        assert forall|d: Seq<u8>| !removed_digests(c2.endpoints@, expose).contains(d) by {
            if removed_digests(c2.endpoints@, expose).contains(d) {
                let k = choose|k: int| 0 <= k < c2.endpoints@.len() && !expose.contains((#[trigger] c2.endpoints@[k]).1) && terminal_seal_digest(c2.endpoints@[k].1) == d;
                assert(expose.contains(kept_endpoints(c1.endpoints@, expose)[k].1));
            }
        }
    }
    let f = bundle_finalize_hits(keep, Set::empty());
    assert forall|i: int| 0 <= i < c2.anchored_bundles@.len() implies f(#[trigger] c2.anchored_bundles@[i]) == 0 by {
        let items1 = c1.anchored_bundles@[i].1.items@;
        let items2 = c2.anchored_bundles@[i].1.items@;
        assert(items_finalized(keep, hidden, items1, items2));
        assert forall|j: int| 0 <= j < items2.len() implies item_finalize_hits(keep, Set::empty())(#[trigger] items2[j]) == 0 by {
            assert(crate::bundle::item_finalized(keep, hidden, items1[j], items2[j]));
            lemma_finalized_rights_quiet(keep, hidden, items1[j].transition.owned_rights@, items2[j].transition.owned_rights@);
        }
        lemma_sum_seq_zero(items2, item_finalize_hits(keep, Set::empty()));
    }
    lemma_sum_seq_zero(c2.anchored_bundles@, f);
    let g = extension_hits(PassSpec::ConcealStateExcept(keep));
    assert forall|i: int| 0 <= i < c2.state_extensions@.len() implies g(#[trigger] c2.state_extensions@[i]) == 0 by {
        assert(extension_result(PassSpec::ConcealStateExcept(keep), c1.state_extensions@[i], c2.state_extensions@[i]));
        lemma_state_pass_quiet(keep, c1.state_extensions@[i].owned_rights@, c2.state_extensions@[i].owned_rights@);
    }
    lemma_sum_seq_zero(c2.state_extensions@, g);
}

/// Revealing seals keeps the anchored bundles, their anchors and ids, and
/// the id of every node: it only attaches plaintext to commitments.
#[verifier::rlimit(60)]
pub proof fn lemma_reveal_keeps_shape(c1: FullConsignment, known: Seq<GraphSeal>, c2: FullConsignment)
    requires
        revealed(c1, known, c2),
    ensures
        c2.anchored_bundles@.len() == c1.anchored_bundles@.len(),
        forall|i: int| 0 <= i < c1.anchored_bundles@.len() ==> (#[trigger] c2.anchored_bundles@[i]).0 == c1.anchored_bundles@[i].0
            && bundle_id(c2.anchored_bundles@[i].1) == bundle_id(c1.anchored_bundles@[i].1),
        node_set(c2) == node_set(c1),
{
    let p = PassSpec::RevealSeals(known);
    assert forall|i: int| 0 <= i < c1.anchored_bundles@.len() implies bundle_id(#[trigger] c2.anchored_bundles@[i].1) == bundle_id(c1.anchored_bundles@[i].1)
        && (forall|j: int| 0 <= j < c1.anchored_bundles@[i].1.items@.len() ==> transition_id((#[trigger] c1.anchored_bundles@[i].1.items@[j]).transition)
            == transition_id(c2.anchored_bundles@[i].1.items@[j].transition)) by {
        lemma_items_result_keeps_bundle_id(p, c1.anchored_bundles@[i].1, c2.anchored_bundles@[i].1);
    }
    assert forall|i: int| 0 <= i < c1.state_extensions@.len() implies extension_id(#[trigger] c1.state_extensions@[i]) == extension_id(c2.state_extensions@[i]) by {
        assert(extension_result(p, c1.state_extensions@[i], c2.state_extensions@[i]));
        lemma_pass_keeps_extension_id(p, c1.state_extensions@[i], c2.state_extensions@[i]);
    }
    assert forall|i: int, d: Seq<u8>| 0 <= i < c1.anchored_bundles@.len() implies #[trigger] in_bundle(c1, i, d) == in_bundle(c2, i, d) by {
        assert(items_result(p, c1.anchored_bundles@[i].1.items@, c2.anchored_bundles@[i].1.items@));
        if in_bundle(c1, i, d) {
            let j = choose|j: int| 0 <= j < c1.anchored_bundles@[i].1.items@.len() && transition_id((#[trigger] c1.anchored_bundles@[i].1.items@[j]).transition) == d;
            assert(transition_id(c2.anchored_bundles@[i].1.items@[j].transition) == d);
        }
        if in_bundle(c2, i, d) {
            let j = choose|j: int| 0 <= j < c2.anchored_bundles@[i].1.items@.len() && transition_id((#[trigger] c2.anchored_bundles@[i].1.items@[j]).transition) == d;
            assert(transition_id(c1.anchored_bundles@[i].1.items@[j].transition) == d);
        }
    }
    assert forall|d: Seq<u8>| #[trigger] node_set(c2).contains(d) == node_set(c1).contains(d) by {
        if is_transition(c1, d) {
            let i = choose|i: int| 0 <= i < c1.anchored_bundles@.len() && #[trigger] in_bundle(c1, i, d);
            assert(in_bundle(c2, i, d));
        }
        if is_transition(c2, d) {
            let i = choose|i: int| 0 <= i < c2.anchored_bundles@.len() && #[trigger] in_bundle(c2, i, d);
            assert(in_bundle(c1, i, d));
        }
        if exists|k: int| 0 <= k < c1.state_extensions@.len() && extension_id(#[trigger] c1.state_extensions@[k]) == d {
            let k = choose|k: int| 0 <= k < c1.state_extensions@.len() && extension_id(#[trigger] c1.state_extensions@[k]) == d;
            assert(extension_id(c2.state_extensions@[k]) == d);
        }
        if exists|k: int| 0 <= k < c2.state_extensions@.len() && extension_id(#[trigger] c2.state_extensions@[k]) == d {
            let k = choose|k: int| 0 <= k < c2.state_extensions@.len() && extension_id(#[trigger] c2.state_extensions@[k]) == d;
            assert(extension_id(c1.state_extensions@[k]) == d);
        }
    }
    assert(node_set(c2) =~= node_set(c1));
}

} // verus!
