//! Nodes of the contract graph (genesis, transitions, extensions), their
//! owned-right assignments, and the concealment and revelation passes over
//! those assignments.
use vstd::prelude::*;
use vstd::string::StringSliceAdditionalSpecFns;

use crate::hash::{
    digest_eq, enc_bytes, enc_seq, le_u16, le_u64, lemma_enc_seq_congruent, lemma_enc_seq_step,
    lemma_sum_prefix_le, lemma_sum_seq_congruent, lemma_sum_seq_step, lemma_sum_seq_zero,
    push_bytes, push_digest, push_u16, push_u64, push_u8, sum_seq, tagged_hash, tagged_hash_spec,
    Digest,
};
use crate::seal::{graph_seal_digest, GraphSeal, SecretSeal};

verus! {

broadcast use vstd::array::group_array_axioms;

/// Identifier of a genesis, transition or extension.
pub type NodeId = Digest;

/// Seal of an assignment, revealed or concealed.
#[derive(Clone, Copy, Debug)]
pub enum SealDef {
    Revealed(GraphSeal),
    Concealed(SecretSeal),
}

/// State of an assignment, revealed or concealed.
#[derive(Clone, Debug)]
pub enum StateDef {
    Revealed(Vec<u8>),
    Concealed(Digest),
}

/// A unit of state bound to a seal.
#[derive(Clone, Debug)]
pub struct Assignment {
    pub seal: SealDef,
    pub state: StateDef,
}

/// The assignments of one owned-right type produced by a node.
#[derive(Clone, Debug)]
pub struct OwnedRight {
    pub right_type: u16,
    pub assignments: Vec<Assignment>,
}

/// Reference to an output of an earlier node consumed by a transition.
#[derive(Clone, Copy, Debug)]
pub struct ParentOutput {
    pub node_id: NodeId,
    pub right_type: u16,
    pub no: u16,
}

/// Root node of a contract.
#[derive(Clone, Debug)]
pub struct Genesis {
    pub schema_id: Digest,
    pub owned_rights: Vec<OwnedRight>,
    pub metadata: Vec<u8>,
}

/// State transition: consumes parent outputs and assigns new state.
#[derive(Clone, Debug)]
pub struct Transition {
    pub transition_type: u16,
    pub parent_outputs: Vec<ParentOutput>,
    pub owned_rights: Vec<OwnedRight>,
    pub metadata: Vec<u8>,
}

/// State extension: assigns new state without a witness transaction of its
/// own.
#[derive(Clone, Debug)]
pub struct Extension {
    pub extension_type: u16,
    pub contract_id: Digest,
    pub owned_rights: Vec<OwnedRight>,
    pub metadata: Vec<u8>,
}

pub open spec fn state_tag() -> Seq<u8> {
    "rgb:state".spec_bytes()
}

pub open spec fn node_tag() -> Seq<u8> {
    "rgb:node".spec_bytes()
}

/// Digest of the concealed form of a seal definition.
pub open spec fn seal_def_digest(s: SealDef) -> Seq<u8> {
    match s {
        SealDef::Revealed(g) => graph_seal_digest(g),
        SealDef::Concealed(h) => h.0.bytes@,
    }
}

/// Digest of the concealed form of a state.
pub open spec fn state_digest(s: StateDef) -> Seq<u8> {
    match s {
        StateDef::Revealed(b) => tagged_hash_spec(state_tag(), b@),
        StateDef::Concealed(d) => d.bytes@,
    }
}

/// What a node commits to of an assignment: the concealed forms only, so
/// that concealing or revealing never changes a node id.
pub open spec fn assignment_commit(a: Assignment) -> Seq<u8> {
    seal_def_digest(a.seal) + state_digest(a.state)
}

pub open spec fn assignment_enc() -> spec_fn(Assignment) -> Seq<u8> {
    |a: Assignment| assignment_commit(a)
}

pub open spec fn right_commit(r: OwnedRight) -> Seq<u8> {
    le_u16(r.right_type) + le_u64(r.assignments@.len() as u64) + enc_seq(
        r.assignments@,
        assignment_enc(),
    )
}

pub open spec fn right_enc() -> spec_fn(OwnedRight) -> Seq<u8> {
    |r: OwnedRight| right_commit(r)
}

pub open spec fn rights_commit(rs: Seq<OwnedRight>) -> Seq<u8> {
    le_u64(rs.len() as u64) + enc_seq(rs, right_enc())
}

pub open spec fn parent_bytes(p: ParentOutput) -> Seq<u8> {
    p.node_id.bytes@ + le_u16(p.right_type) + le_u16(p.no)
}

pub open spec fn genesis_commit(g: Genesis) -> Seq<u8> {
    seq![0u8] + g.schema_id.bytes@ + rights_commit(g.owned_rights@) + enc_bytes(g.metadata@)
}

pub open spec fn parent_enc() -> spec_fn(ParentOutput) -> Seq<u8> {
    |p: ParentOutput| parent_bytes(p)
}

pub open spec fn transition_commit(t: Transition) -> Seq<u8> {
    seq![1u8] + le_u16(t.transition_type) + le_u64(t.parent_outputs@.len() as u64) + enc_seq(
        t.parent_outputs@,
        parent_enc(),
    ) + rights_commit(t.owned_rights@) + enc_bytes(t.metadata@)
}

pub open spec fn extension_commit(e: Extension) -> Seq<u8> {
    seq![2u8] + le_u16(e.extension_type) + e.contract_id.bytes@ + rights_commit(e.owned_rights@)
        + enc_bytes(e.metadata@)
}

pub open spec fn genesis_id(g: Genesis) -> Seq<u8> {
    tagged_hash_spec(node_tag(), genesis_commit(g))
}

pub open spec fn transition_id(t: Transition) -> Seq<u8> {
    tagged_hash_spec(node_tag(), transition_commit(t))
}

pub open spec fn extension_id(e: Extension) -> Seq<u8> {
    tagged_hash_spec(node_tag(), extension_commit(e))
}

/// Whether some secret seal of `set` has the digest `d`.
pub open spec fn digest_in(d: Seq<u8>, set: Seq<SecretSeal>) -> bool {
    exists|i: int| 0 <= i < set.len() && (#[trigger] set[i]).0.bytes@ == d
}

/// The digests of a list of secret seals.
pub open spec fn digest_set(set: Seq<SecretSeal>) -> Set<Seq<u8>> {
    Set::new(|d: Seq<u8>| digest_in(d, set))
}

/// One pass over every assignment of a node.
pub enum Pass<'a> {
    /// Conceal revealed state unless its seal is among the given ones.
    ConcealStateExcept(&'a Vec<SecretSeal>),
    /// Conceal revealed seals that are among the given ones.
    ConcealSeals(&'a Vec<SecretSeal>),
    /// Reveal concealed seals whose preimage is among the given seals.
    RevealSeals(&'a Vec<GraphSeal>),
}

/// What a pass does, over the digests of the seals it selects.
pub enum PassSpec {
    /// Conceal revealed state whose seal digest is not in the set.
    ConcealStateExcept(Set<Seq<u8>>),
    /// Conceal revealed seals whose digest is in the set.
    ConcealSeals(Set<Seq<u8>>),
    /// Reveal concealed seals from the known revealed seals.
    RevealSeals(Seq<GraphSeal>),
}

pub open spec fn pass_spec(p: Pass) -> PassSpec {
    match p {
        Pass::ConcealStateExcept(v) => PassSpec::ConcealStateExcept(digest_set(v@)),
        Pass::ConcealSeals(v) => PassSpec::ConcealSeals(digest_set(v@)),
        Pass::RevealSeals(k) => PassSpec::RevealSeals(k@),
    }
}

/// Whether some known seal conceals to `d`.
pub open spec fn known_match(known: Seq<GraphSeal>, d: Seq<u8>) -> bool {
    exists|k: int| 0 <= k < known.len() && graph_seal_digest(#[trigger] known[k]) == d
}

/// Whether `s` reveals the first known seal that conceals to `d`.
pub open spec fn revealed_from(known: Seq<GraphSeal>, d: Seq<u8>, s: SealDef) -> bool {
    exists|k: int|
        0 <= k < known.len() && s == SealDef::Revealed(#[trigger] known[k]) && graph_seal_digest(
            known[k],
        ) == d && forall|j: int| 0 <= j < k ==> graph_seal_digest(#[trigger] known[j]) != d
}

/// Whether the pass changes the assignment.
pub open spec fn pass_hits(p: PassSpec, a: Assignment) -> bool {
    match p {
        PassSpec::ConcealStateExcept(keep) => a.state is Revealed && !keep.contains(
            seal_def_digest(a.seal),
        ),
        PassSpec::ConcealSeals(hidden) => a.seal is Revealed && hidden.contains(seal_def_digest(a.seal)),
        PassSpec::RevealSeals(known) => a.seal is Concealed && known_match(
            known,
            seal_def_digest(a.seal),
        ),
    }
}

/// What the pass makes of assignment `a`: `b`.
pub open spec fn pass_result(p: PassSpec, a: Assignment, b: Assignment) -> bool {
    if !pass_hits(p, a) {
        b == a
    } else {
        match p {
            PassSpec::ConcealStateExcept(_) => b.seal == a.seal && b.state is Concealed
                && state_digest(b.state) == state_digest(a.state),
            PassSpec::ConcealSeals(_) => b.state == a.state && b.seal is Concealed && seal_def_digest(
                b.seal,
            ) == seal_def_digest(a.seal),
            PassSpec::RevealSeals(known) => b.state == a.state && revealed_from(
                known,
                seal_def_digest(a.seal),
                b.seal,
            ),
        }
    }
}

pub open spec fn hit_count(p: PassSpec, a: Assignment) -> nat {
    if pass_hits(p, a) {
        1
    } else {
        0
    }
}

pub open spec fn hit_counter(p: PassSpec) -> spec_fn(Assignment) -> nat {
    |a: Assignment| hit_count(p, a)
}

pub open spec fn right_hits(p: PassSpec, r: OwnedRight) -> nat {
    sum_seq(r.assignments@, hit_counter(p))
}

pub open spec fn right_counter(p: PassSpec) -> spec_fn(OwnedRight) -> nat {
    |r: OwnedRight| right_hits(p, r)
}

/// Number of assignments that the pass changes.
pub open spec fn rights_hits(p: PassSpec, rs: Seq<OwnedRight>) -> nat {
    sum_seq(rs, right_counter(p))
}

pub open spec fn assignment_len() -> spec_fn(OwnedRight) -> nat {
    |r: OwnedRight| r.assignments@.len()
}

pub open spec fn right_result(p: PassSpec, r1: OwnedRight, r2: OwnedRight) -> bool {
    &&& r2.right_type == r1.right_type
    &&& r2.assignments@.len() == r1.assignments@.len()
    &&& forall|j: int|
        0 <= j < r1.assignments@.len() ==> pass_result(
            p,
            #[trigger] r1.assignments@[j],
            r2.assignments@[j],
        )
}

/// What the pass makes of a node's owned rights: the same rights and
/// assignments, in the same order, each changed as `pass_result` says.
pub open spec fn rights_result(p: PassSpec, rs1: Seq<OwnedRight>, rs2: Seq<OwnedRight>) -> bool {
    &&& rs2.len() == rs1.len()
    &&& forall|i: int| 0 <= i < rs1.len() ==> right_result(p, #[trigger] rs1[i], rs2[i])
}

/// Number of assignments of a node's owned rights.
pub open spec fn assignment_total(rs: Seq<OwnedRight>) -> nat {
    sum_seq(rs, assignment_len())
}

/// A pass leaves the commitment of every assignment unchanged.
pub proof fn lemma_pass_keeps_commit(p: PassSpec, a: Assignment, b: Assignment)
    requires
        pass_result(p, a, b),
    ensures
        assignment_commit(a) == assignment_commit(b),
{
}

/// A pass leaves the commitment of a node's owned rights unchanged.
pub proof fn lemma_rights_result_keeps_commit(p: PassSpec, rs1: Seq<OwnedRight>, rs2: Seq<OwnedRight>)
    requires
        rights_result(p, rs1, rs2),
    ensures
        rights_commit(rs1) == rights_commit(rs2),
{
    let fa = assignment_enc();
    let fr = right_enc();
    assert forall|i: int| 0 <= i < rs1.len() implies fr(#[trigger] rs1[i]) == fr(rs2[i]) by {
        assert(right_result(p, rs1[i], rs2[i]));
        assert forall|j: int| 0 <= j < rs1[i].assignments@.len() implies fa(
            #[trigger] rs1[i].assignments@[j],
        ) == fa(rs2[i].assignments@[j]) by {
            lemma_pass_keeps_commit(p, rs1[i].assignments@[j], rs2[i].assignments@[j]);
        }
        lemma_enc_seq_congruent(rs1[i].assignments@, rs2[i].assignments@, fa);
    }
    lemma_enc_seq_congruent(rs1, rs2, fr);
}

/// Whether `d` is the digest of some secret seal of `set`.
fn contains_digest(set: &Vec<SecretSeal>, d: &Digest) -> (r: bool)
    ensures
        r == digest_in(d.bytes@, set@),
{
    let mut i: usize = 0;
    while i < set.len()
        invariant
            i <= set@.len(),
            forall|k: int| 0 <= k < i ==> (#[trigger] set@[k]).0.bytes@ != d.bytes@,
        decreases set@.len() - i,
    {
        if digest_eq(&set[i].0, d) {
            return true;
        }
        i = i + 1;
    }
    false
}

/// Concealed form of a state.
fn conceal_state(s: &StateDef) -> (r: Digest)
    ensures
        r.bytes@ == state_digest(*s),
{
    match s {
        StateDef::Revealed(b) => tagged_hash("rgb:state", b),
        StateDef::Concealed(d) => *d,
    }
}

/// Concealed form of a seal definition.
fn conceal_seal_def(s: &SealDef) -> (r: SecretSeal)
    ensures
        r.0.bytes@ == seal_def_digest(*s),
{
    match s {
        SealDef::Revealed(g) => g.conceal(),
        SealDef::Concealed(h) => *h,
    }
}

/// Applies a pass to one assignment; tells whether it changed it.
fn apply_pass(a: &mut Assignment, p: &Pass) -> (hit: bool)
    ensures
        hit == pass_hits(pass_spec(*p), *old(a)),
        pass_result(pass_spec(*p), *old(a), *final(a)),
{
    match p {
        Pass::ConcealStateExcept(expose) => {
            let revealed = matches!(a.state, StateDef::Revealed(_));
            if !revealed {
                return false;
            }
            let d = conceal_seal_def(&a.seal);
            if contains_digest(expose, &d.0) {
                return false;
            }
            let c = conceal_state(&a.state);
            a.state = StateDef::Concealed(c);
            true
        },
        Pass::ConcealSeals(seals) => {
            let revealed = matches!(a.seal, SealDef::Revealed(_));
            if !revealed {
                return false;
            }
            let d = conceal_seal_def(&a.seal);
            if !contains_digest(seals, &d.0) {
                return false;
            }
            a.seal = SealDef::Concealed(d);
            true
        },
        Pass::RevealSeals(known_ref) => {
            let known: &Vec<GraphSeal> = *known_ref;
            let h = match a.seal {
                SealDef::Concealed(h) => h,
                SealDef::Revealed(_) => {
                    return false;
                },
            };
            let mut k: usize = 0;
            while k < known.len()
                invariant
                    k <= known@.len(),
                    *p == Pass::RevealSeals(known),
                    *a == *old(a),
                    old(a).seal == SealDef::Concealed(h),
                    forall|j: int|
                        0 <= j < k ==> graph_seal_digest(#[trigger] known@[j]) != h.0.bytes@,
                decreases known@.len() - k,
            {
                let c = known[k].conceal();
                if digest_eq(&c.0, &h.0) {
                    let ghost kk = k as int;
                    assert(graph_seal_digest(known@[kk]) == seal_def_digest(old(a).seal));
                    assert(known_match(known@, seal_def_digest(old(a).seal)));
                    a.seal = SealDef::Revealed(known[k]);
                    assert(revealed_from(known@, seal_def_digest(old(a).seal), a.seal));
                    return true;
                }
                k = k + 1;
            }
            false
        },
    }
}

/// Applies a pass to every assignment of one owned right.
fn apply_pass_right(r: &mut OwnedRight, p: &Pass) -> (count: usize)
    ensures
        right_result(pass_spec(*p), *old(r), *final(r)),
        count == right_hits(pass_spec(*p), *old(r)),
{
    let ghost start = r.assignments@;
    let mut count: usize = 0;
    let mut i: usize = 0;
    while i < r.assignments.len()
        invariant
            r.assignments@.len() == start.len(),
            r.right_type == old(r).right_type,
            start == old(r).assignments@,
            i <= start.len(),
            forall|j: int| 0 <= j < i ==> pass_result(pass_spec(*p), #[trigger] start[j], r.assignments@[j]),
            forall|j: int| i <= j < start.len() ==> #[trigger] r.assignments@[j] == start[j],
            count == sum_seq(start.subrange(0, i as int), hit_counter(pass_spec(*p))),
            count <= i,
        decreases start.len() - i,
    {
        let hit = apply_pass(&mut r.assignments[i], p);
        proof {
            lemma_sum_seq_step(start, i as int, hit_counter(pass_spec(*p)));
        }
        if hit {
            count = count + 1;
        }
        i = i + 1;
    }
    assert(start.subrange(0, start.len() as int) =~= start);
    count
}

/// Applies a pass to every assignment of a node's owned rights.
pub fn apply_pass_rights(rs: &mut Vec<OwnedRight>, p: &Pass) -> (count: usize)
    requires
        assignment_total(old(rs)@) <= usize::MAX,
    ensures
        rights_result(pass_spec(*p), old(rs)@, final(rs)@),
        count == rights_hits(pass_spec(*p), old(rs)@),
        count <= assignment_total(old(rs)@),
{
    let ghost start = rs@;
    let mut count: usize = 0;
    let mut i: usize = 0;
    while i < rs.len()
        invariant
            rs@.len() == start.len(),
            start == old(rs)@,
            assignment_total(start) <= usize::MAX,
            i <= start.len(),
            forall|j: int| 0 <= j < i ==> right_result(pass_spec(*p), #[trigger] start[j], rs@[j]),
            forall|j: int| i <= j < start.len() ==> #[trigger] rs@[j] == start[j],
            count == sum_seq(start.subrange(0, i as int), right_counter(pass_spec(*p))),
            count <= sum_seq(start.subrange(0, i as int), assignment_len()),
        decreases start.len() - i,
    {
        proof {
            lemma_sum_seq_step(start, i as int, right_counter(pass_spec(*p)));
            lemma_sum_seq_step(start, i as int, assignment_len());
            lemma_sum_prefix_le(start, i as int + 1, assignment_len());
            lemma_hits_le_len(pass_spec(*p), start[i as int]);
        }
        let n = apply_pass_right(&mut rs[i], p);
        count = count + n;
        i = i + 1;
    }
    assert(start.subrange(0, start.len() as int) =~= start);
    count
}

pub proof fn lemma_hits_le_len(p: PassSpec, r: OwnedRight)
    ensures
        right_hits(p, r) <= r.assignments@.len(),
{
    lemma_hits_le_len_seq(p, r.assignments@);
}

pub proof fn lemma_hits_le_len_seq(p: PassSpec, s: Seq<Assignment>)
    ensures
        sum_seq(s, hit_counter(p)) <= s.len(),
    decreases s.len(),
{
    if s.len() > 0 {
        lemma_hits_le_len_seq(p, s.drop_last());
    }
}

/// Appends the commitment of one assignment.
fn push_assignment_commit(out: &mut Vec<u8>, a: &Assignment)
    ensures
        final(out)@ == old(out)@ + assignment_commit(*a),
{
    let seal = conceal_seal_def(&a.seal);
    push_digest(out, &seal.0);
    let state = conceal_state(&a.state);
    push_digest(out, &state);
    assert(final(out)@ =~= old(out)@ + assignment_commit(*a));
}

/// Appends the commitment of a node's owned rights.
fn push_rights_commit(out: &mut Vec<u8>, rs: &Vec<OwnedRight>)
    ensures
        final(out)@ == old(out)@ + rights_commit(rs@),
{
    push_u64(out, rs.len() as u64);
    let ghost start = out@;
    let mut i: usize = 0;
    while i < rs.len()
        invariant
            i <= rs@.len(),
            out@ == start + enc_seq(rs@.subrange(0, i as int), right_enc()),
        decreases rs@.len() - i,
    {
        let r = &rs[i];
        let ghost before = out@;
        push_u16(out, r.right_type);
        push_u64(out, r.assignments.len() as u64);
        let ghost mid = out@;
        let mut j: usize = 0;
        while j < r.assignments.len()
            invariant
                j <= r.assignments@.len(),
                out@ == mid + enc_seq(r.assignments@.subrange(0, j as int), assignment_enc()),
            decreases r.assignments@.len() - j,
        {
            push_assignment_commit(out, &r.assignments[j]);
            proof {
                lemma_enc_seq_step(r.assignments@, j as int, assignment_enc());
            }
            j = j + 1;
        }
        proof {
            assert(r.assignments@.subrange(0, r.assignments@.len() as int) =~= r.assignments@);
            assert(out@ =~= before + right_commit(*r));
            lemma_enc_seq_step(rs@, i as int, right_enc());
        }
        i = i + 1;
    }
    assert(rs@.subrange(0, rs@.len() as int) =~= rs@);
}

/// Appends the parent outputs of a transition, prefixed with their number.
pub(crate) fn push_parents(out: &mut Vec<u8>, ps: &Vec<ParentOutput>)
    ensures
        final(out)@ == old(out)@ + le_u64(ps@.len() as u64) + enc_seq(ps@, parent_enc()),
{
    push_u64(out, ps.len() as u64);
    let ghost start = out@;
    let mut i: usize = 0;
    while i < ps.len()
        invariant
            i <= ps@.len(),
            out@ == start + enc_seq(ps@.subrange(0, i as int), parent_enc()),
        decreases ps@.len() - i,
    {
        let ghost before = out@;
        push_digest(out, &ps[i].node_id);
        push_u16(out, ps[i].right_type);
        push_u16(out, ps[i].no);
        proof {
            assert(out@ =~= before + parent_bytes(ps@[i as int]));
            lemma_enc_seq_step(ps@, i as int, parent_enc());
        }
        i = i + 1;
    }
    assert(ps@.subrange(0, ps@.len() as int) =~= ps@);
}

/// Parent outputs of the given owned-right type, in order.
pub open spec fn parents_of_type(ps: Seq<ParentOutput>, ty: u16) -> Seq<ParentOutput>
    decreases ps.len(),
{
    if ps.len() == 0 {
        seq![]
    } else if ps.last().right_type == ty {
        parents_of_type(ps.drop_last(), ty).push(ps.last())
    } else {
        parents_of_type(ps.drop_last(), ty)
    }
}

impl Genesis {
    /// Id of the genesis: the tagged hash of its commitment.
    pub fn node_id(&self) -> (r: NodeId)
        ensures
            r.bytes@ == genesis_id(*self),
    {
        let mut buf: Vec<u8> = Vec::new();
        push_u8(&mut buf, 0);
        push_digest(&mut buf, &self.schema_id);
        push_rights_commit(&mut buf, &self.owned_rights);
        push_bytes(&mut buf, &self.metadata);
        assert(buf@ =~= genesis_commit(*self));
        tagged_hash("rgb:node", &buf)
    }
}

impl Transition {
    /// Id of the transition: the tagged hash of its commitment, which holds
    /// its assignments in concealed form only.
    pub fn node_id(&self) -> (r: NodeId)
        ensures
            r.bytes@ == transition_id(*self),
    {
        let mut buf: Vec<u8> = Vec::new();
        push_u8(&mut buf, 1);
        push_u16(&mut buf, self.transition_type);
        push_parents(&mut buf, &self.parent_outputs);
        push_rights_commit(&mut buf, &self.owned_rights);
        push_bytes(&mut buf, &self.metadata);
        assert(buf@ =~= transition_commit(*self));
        tagged_hash("rgb:node", &buf)
    }

    pub fn transition_type(&self) -> (r: u16)
        ensures
            r == self.transition_type,
    {
        self.transition_type
    }

    /// Parent outputs of the owned-right type `ty`, in order.
    pub fn parent_outputs_by_type(&self, ty: u16) -> (r: Vec<ParentOutput>)
        ensures
            r@ == parents_of_type(self.parent_outputs@, ty),
    {
        let mut r: Vec<ParentOutput> = Vec::new();
        let mut i: usize = 0;
        while i < self.parent_outputs.len()
            invariant
                i <= self.parent_outputs@.len(),
                r@ == parents_of_type(self.parent_outputs@.subrange(0, i as int), ty),
            decreases self.parent_outputs@.len() - i,
        {
            proof {
                assert(self.parent_outputs@.subrange(0, i + 1).drop_last() =~= self.parent_outputs@.subrange(0, i as int));
            }
            if self.parent_outputs[i].right_type == ty {
                r.push(self.parent_outputs[i]);
            }
            i = i + 1;
        }
        assert(self.parent_outputs@.subrange(0, self.parent_outputs@.len() as int) =~= self.parent_outputs@);
        r
    }

    /// Conceals revealed state of every assignment whose seal is not among
    /// `expose`; returns how many were concealed.
    pub fn conceal_state_except(&mut self, expose: &Vec<SecretSeal>) -> (count: usize)
        requires
            assignment_total(old(self).owned_rights@) <= usize::MAX,
        ensures
            same_but_rights(*old(self), *final(self)),
            rights_result(pass_spec(Pass::ConcealStateExcept(expose)), old(self).owned_rights@, final(self).owned_rights@),
            count == rights_hits(pass_spec(Pass::ConcealStateExcept(expose)), old(self).owned_rights@),
    {
        apply_pass_rights(&mut self.owned_rights, &Pass::ConcealStateExcept(expose))
    }

    /// Conceals every revealed seal that is among `seals`; returns how many
    /// were concealed.
    pub fn conceal_seals(&mut self, seals: &Vec<SecretSeal>) -> (count: usize)
        requires
            assignment_total(old(self).owned_rights@) <= usize::MAX,
        ensures
            same_but_rights(*old(self), *final(self)),
            rights_result(pass_spec(Pass::ConcealSeals(seals)), old(self).owned_rights@, final(self).owned_rights@),
            count == rights_hits(pass_spec(Pass::ConcealSeals(seals)), old(self).owned_rights@),
    {
        apply_pass_rights(&mut self.owned_rights, &Pass::ConcealSeals(seals))
    }

    /// Reveals every concealed seal whose preimage is among `known`; returns
    /// how many were revealed.
    pub fn reveal_seals(&mut self, known: &Vec<GraphSeal>) -> (count: usize)
        requires
            assignment_total(old(self).owned_rights@) <= usize::MAX,
        ensures
            same_but_rights(*old(self), *final(self)),
            rights_result(PassSpec::RevealSeals(known@), old(self).owned_rights@, final(self).owned_rights@),
            count == rights_hits(PassSpec::RevealSeals(known@), old(self).owned_rights@),
    {
        apply_pass_rights(&mut self.owned_rights, &Pass::RevealSeals(known))
    }
}

/// Two transitions that differ at most in their owned rights.
pub open spec fn same_but_rights(t1: Transition, t2: Transition) -> bool {
    &&& t2.transition_type == t1.transition_type
    &&& t2.parent_outputs == t1.parent_outputs
    &&& t2.metadata == t1.metadata
    &&& t2.owned_rights@.len() == t1.owned_rights@.len()
}

/// A pass over a transition's owned rights keeps its id.
pub proof fn lemma_pass_keeps_transition_id(p: PassSpec, t1: Transition, t2: Transition)
    requires
        same_but_rights(t1, t2),
        rights_result(p, t1.owned_rights@, t2.owned_rights@),
    ensures
        transition_id(t1) == transition_id(t2),
{
    lemma_rights_result_keeps_commit(p, t1.owned_rights@, t2.owned_rights@);
}

impl Extension {
    /// Id of the extension: the tagged hash of its commitment.
    pub fn node_id(&self) -> (r: NodeId)
        ensures
            r.bytes@ == extension_id(*self),
    {
        let mut buf: Vec<u8> = Vec::new();
        push_u8(&mut buf, 2);
        push_u16(&mut buf, self.extension_type);
        push_digest(&mut buf, &self.contract_id);
        push_rights_commit(&mut buf, &self.owned_rights);
        push_bytes(&mut buf, &self.metadata);
        assert(buf@ =~= extension_commit(*self));
        tagged_hash("rgb:node", &buf)
    }

    /// Conceals revealed state of every assignment whose seal is not among
    /// `expose`; returns how many were concealed.
    pub fn conceal_state_except(&mut self, expose: &Vec<SecretSeal>) -> (count: usize)
        requires
            assignment_total(old(self).owned_rights@) <= usize::MAX,
        ensures
            final(self).extension_type == old(self).extension_type,
            final(self).contract_id == old(self).contract_id,
            final(self).metadata == old(self).metadata,
            rights_result(pass_spec(Pass::ConcealStateExcept(expose)), old(self).owned_rights@, final(self).owned_rights@),
            count == rights_hits(pass_spec(Pass::ConcealStateExcept(expose)), old(self).owned_rights@),
    {
        apply_pass_rights(&mut self.owned_rights, &Pass::ConcealStateExcept(expose))
    }

    /// Reveals every concealed seal whose preimage is among `known`; returns
    /// how many were revealed.
    pub fn reveal_seals(&mut self, known: &Vec<GraphSeal>) -> (count: usize)
        requires
            assignment_total(old(self).owned_rights@) <= usize::MAX,
        ensures
            final(self).extension_type == old(self).extension_type,
            final(self).contract_id == old(self).contract_id,
            final(self).metadata == old(self).metadata,
            rights_result(PassSpec::RevealSeals(known@), old(self).owned_rights@, final(self).owned_rights@),
            count == rights_hits(PassSpec::RevealSeals(known@), old(self).owned_rights@),
    {
        apply_pass_rights(&mut self.owned_rights, &Pass::RevealSeals(known))
    }
}

/// The two concealment passes of finalization, one after the other: state
/// of seals outside `keep`, then seals inside `hidden`.
pub open spec fn finalize_result(
    keep: Set<Seq<u8>>,
    hidden: Set<Seq<u8>>,
    rs1: Seq<OwnedRight>,
    rs2: Seq<OwnedRight>,
) -> bool {
    exists|mid: Seq<OwnedRight>|
        rights_result(PassSpec::ConcealStateExcept(keep), rs1, mid) && rights_result(
            PassSpec::ConcealSeals(hidden),
            mid,
            rs2,
        )
}

/// Number of changes the two finalization passes make.
pub open spec fn finalize_hits(keep: Set<Seq<u8>>, hidden: Set<Seq<u8>>, rs: Seq<OwnedRight>) -> nat {
    rights_hits(PassSpec::ConcealStateExcept(keep), rs) + rights_hits(PassSpec::ConcealSeals(hidden), rs)
}

/// A pass keeps the number of assignments.
pub proof fn lemma_pass_keeps_total(p: PassSpec, rs1: Seq<OwnedRight>, rs2: Seq<OwnedRight>)
    requires
        rights_result(p, rs1, rs2),
    ensures
        assignment_total(rs1) == assignment_total(rs2),
{
    assert forall|i: int| 0 <= i < rs1.len() implies assignment_len()(#[trigger] rs1[i]) == assignment_len()(rs2[i]) by {
        assert(right_result(p, rs1[i], rs2[i]));
    }
    lemma_sum_seq_congruent(rs1, rs2, assignment_len(), assignment_len());
}

/// Concealing state leaves every seal as it was, and so what a seal pass
/// changes.
pub proof fn lemma_state_pass_keeps_seal_hits(
    keep: Set<Seq<u8>>,
    hidden: Set<Seq<u8>>,
    rs1: Seq<OwnedRight>,
    rs2: Seq<OwnedRight>,
)
    requires
        rights_result(PassSpec::ConcealStateExcept(keep), rs1, rs2),
    ensures
        rights_hits(PassSpec::ConcealSeals(hidden), rs1) == rights_hits(PassSpec::ConcealSeals(hidden), rs2),
{
    let ps = PassSpec::ConcealStateExcept(keep);
    let ph = PassSpec::ConcealSeals(hidden);
    assert forall|i: int| 0 <= i < rs1.len() implies right_counter(ph)(#[trigger] rs1[i]) == right_counter(ph)(rs2[i]) by {
        assert(right_result(ps, rs1[i], rs2[i]));
        let a1 = rs1[i].assignments@;
        let a2 = rs2[i].assignments@;
        assert forall|j: int| 0 <= j < a1.len() implies hit_counter(ph)(#[trigger] a1[j]) == hit_counter(ph)(a2[j]) by {
            assert(pass_result(ps, a1[j], a2[j]));
        }
        lemma_sum_seq_congruent(a1, a2, hit_counter(ph), hit_counter(ph));
    }
    lemma_sum_seq_congruent(rs1, rs2, right_counter(ph), right_counter(ph));
}

/// Conceals, in a node's owned rights, the state of every seal outside
/// `keep`, then every seal inside `hidden`; returns the number of changes.
pub fn finalize_rights(rs: &mut Vec<OwnedRight>, keep: &Vec<SecretSeal>, hidden: &Vec<SecretSeal>) -> (count: usize)
    requires
        2 * assignment_total(old(rs)@) <= usize::MAX,
    ensures
        finalize_result(digest_set(keep@), digest_set(hidden@), old(rs)@, final(rs)@),
        count == finalize_hits(digest_set(keep@), digest_set(hidden@), old(rs)@),
        count <= 2 * assignment_total(old(rs)@),
        assignment_total(final(rs)@) == assignment_total(old(rs)@),
{
    let ghost start = rs@;
    let n1 = apply_pass_rights(rs, &Pass::ConcealStateExcept(keep));
    let ghost mid = rs@;
    proof {
        lemma_pass_keeps_total(PassSpec::ConcealStateExcept(digest_set(keep@)), start, mid);
        lemma_state_pass_keeps_seal_hits(digest_set(keep@), digest_set(hidden@), start, mid);
    }
    let n2 = apply_pass_rights(rs, &Pass::ConcealSeals(hidden));
    proof {
        lemma_pass_keeps_total(PassSpec::ConcealSeals(digest_set(hidden@)), mid, rs@);
    }
    n1 + n2
}

/// A pass changes at most every assignment once.
pub proof fn lemma_hits_le_len_total(p: PassSpec, rs: Seq<OwnedRight>)
    ensures
        rights_hits(p, rs) <= assignment_total(rs),
    decreases rs.len(),
{
    if rs.len() > 0 {
        lemma_hits_le_len_total(p, rs.drop_last());
        lemma_hits_le_len(p, rs.last());
    }
}

/// Revealing with a known set that holds the preimage `s` of a concealed
/// seal replaces it with a revealed seal whose concealment is that of `s`.
pub proof fn lemma_reveal_restores_seal(known: Seq<GraphSeal>, s: GraphSeal, a: Assignment, b: Assignment)
    requires
        known.contains(s),
        a.seal matches SealDef::Concealed(h) && h.0.bytes@ == graph_seal_digest(s),
        pass_result(PassSpec::RevealSeals(known), a, b),
    ensures
        pass_hits(PassSpec::RevealSeals(known), a),
        b.seal is Revealed,
        b.state == a.state,
        seal_def_digest(b.seal) == graph_seal_digest(s),
        (forall|j: int| 0 <= j < known.len() && graph_seal_digest(#[trigger] known[j]) == graph_seal_digest(s) ==> known[j] == s)
            ==> b.seal == SealDef::Revealed(s),
{
    let k = choose|k: int| 0 <= k < known.len() && known[k] == s;
    assert(graph_seal_digest(known[k]) == seal_def_digest(a.seal));
}

/// A pass over an extension's owned rights keeps its id.
pub proof fn lemma_pass_keeps_extension_id(p: PassSpec, e1: Extension, e2: Extension)
    requires
        e2.extension_type == e1.extension_type,
        e2.contract_id == e1.contract_id,
        e2.metadata == e1.metadata,
        rights_result(p, e1.owned_rights@, e2.owned_rights@),
    ensures
        extension_id(e1) == extension_id(e2),
{
    lemma_rights_result_keeps_commit(p, e1.owned_rights@, e2.owned_rights@);
    assert(extension_commit(e1) == extension_commit(e2));
}

/// After concealing state outside `keep`, that pass has nothing left to do.
pub proof fn lemma_state_pass_quiet(keep: Set<Seq<u8>>, rs1: Seq<OwnedRight>, rs2: Seq<OwnedRight>)
    requires
        rights_result(PassSpec::ConcealStateExcept(keep), rs1, rs2),
    ensures
        rights_hits(PassSpec::ConcealStateExcept(keep), rs2) == 0,
{
    let p = PassSpec::ConcealStateExcept(keep);
    assert forall|i: int| 0 <= i < rs2.len() implies right_counter(p)(#[trigger] rs2[i]) == 0 by {
        assert(right_result(p, rs1[i], rs2[i]));
        let a2 = rs2[i].assignments@;
        assert forall|j: int| 0 <= j < a2.len() implies hit_counter(p)(#[trigger] a2[j]) == 0 by {
            assert(pass_result(p, rs1[i].assignments@[j], a2[j]));
        }
        lemma_sum_seq_zero(a2, hit_counter(p));
    }
    lemma_sum_seq_zero(rs2, right_counter(p));
}

/// After finalization, finalizing again with the same exposed seals and no
/// seals to conceal has nothing left to do.
pub proof fn lemma_finalized_rights_quiet(
    keep: Set<Seq<u8>>,
    hidden: Set<Seq<u8>>,
    rs1: Seq<OwnedRight>,
    rs2: Seq<OwnedRight>,
)
    requires
        finalize_result(keep, hidden, rs1, rs2),
    ensures
        finalize_hits(keep, Set::empty(), rs2) == 0,
{
    let ps = PassSpec::ConcealStateExcept(keep);
    let ph = PassSpec::ConcealSeals(hidden);
    let pe = PassSpec::ConcealSeals(Set::empty());
    let mid = choose|mid: Seq<OwnedRight>| rights_result(ps, rs1, mid) && rights_result(ph, mid, rs2);
    assert forall|i: int| 0 <= i < rs2.len() implies right_counter(ps)(#[trigger] rs2[i]) == 0
        && right_counter(pe)(rs2[i]) == 0 by {
        assert(right_result(ps, rs1[i], mid[i]));
        assert(right_result(ph, mid[i], rs2[i]));
        let a2 = rs2[i].assignments@;
        assert forall|j: int| 0 <= j < a2.len() implies hit_counter(ps)(#[trigger] a2[j]) == 0
            && hit_counter(pe)(a2[j]) == 0 by {
            assert(pass_result(ps, rs1[i].assignments@[j], mid[i].assignments@[j]));
            assert(pass_result(ph, mid[i].assignments@[j], a2[j]));
        }
        lemma_sum_seq_zero(a2, hit_counter(ps));
        lemma_sum_seq_zero(a2, hit_counter(pe));
    }
    lemma_sum_seq_zero(rs2, right_counter(ps));
    lemma_sum_seq_zero(rs2, right_counter(pe));
}

} // verus!
