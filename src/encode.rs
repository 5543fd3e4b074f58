//! The canonical binary encoding of a consignment and its parts, which the
//! consignment id commits to. Unlike node commitments it carries revealed
//! data as it stands.
use vstd::prelude::*;
use vstd::string::StringSliceAdditionalSpecFns;

use crate::bundle::{input_enc, Anchor, BundleItem, TransitionBundle};
use crate::consignment::FullConsignment;
use crate::hash::{
    enc_bytes, enc_seq, lemma_enc_seq_step, le_u16, le_u32, le_u64, push_bytes, push_digest,
    push_u16, push_u32, push_u64, push_u8, tagged_hash, tagged_hash_spec, Digest,
};
use crate::node::{
    parent_enc, push_parents, Assignment, Extension, Genesis, OwnedRight, SealDef, StateDef,
    Transition,
};
use crate::seal::{graph_seal_bytes, method_byte, push_graph_seal, TerminalSeal};

verus! {

pub open spec fn seal_def_bytes(s: SealDef) -> Seq<u8> {
    match s {
        SealDef::Revealed(g) => seq![0u8] + graph_seal_bytes(g),
        SealDef::Concealed(h) => seq![1u8] + h.0.bytes@,
    }
}

pub open spec fn state_bytes(s: StateDef) -> Seq<u8> {
    match s {
        StateDef::Revealed(b) => seq![0u8] + enc_bytes(b@),
        StateDef::Concealed(d) => seq![1u8] + d.bytes@,
    }
}

pub open spec fn assignment_bytes(a: Assignment) -> Seq<u8> {
    seal_def_bytes(a.seal) + state_bytes(a.state)
}

pub open spec fn assignment_full() -> spec_fn(Assignment) -> Seq<u8> {
    |a: Assignment| assignment_bytes(a)
}

pub open spec fn right_bytes(r: OwnedRight) -> Seq<u8> {
    le_u16(r.right_type) + le_u64(r.assignments@.len() as u64) + enc_seq(r.assignments@, assignment_full())
}

pub open spec fn right_full() -> spec_fn(OwnedRight) -> Seq<u8> {
    |r: OwnedRight| right_bytes(r)
}

pub open spec fn rights_bytes(rs: Seq<OwnedRight>) -> Seq<u8> {
    le_u64(rs.len() as u64) + enc_seq(rs, right_full())
}

pub open spec fn genesis_bytes(g: Genesis) -> Seq<u8> {
    g.schema_id.bytes@ + rights_bytes(g.owned_rights@) + enc_bytes(g.metadata@)
}

pub open spec fn transition_bytes(t: Transition) -> Seq<u8> {
    le_u16(t.transition_type) + le_u64(t.parent_outputs@.len() as u64) + enc_seq(t.parent_outputs@, parent_enc())
        + rights_bytes(t.owned_rights@) + enc_bytes(t.metadata@)
}

pub open spec fn extension_bytes(e: Extension) -> Seq<u8> {
    le_u16(e.extension_type) + e.contract_id.bytes@ + rights_bytes(e.owned_rights@) + enc_bytes(e.metadata@)
}

pub open spec fn item_bytes(it: BundleItem) -> Seq<u8> {
    transition_bytes(it.transition) + le_u64(it.inputs@.len() as u64) + enc_seq(it.inputs@, input_enc())
}

pub open spec fn item_full() -> spec_fn(BundleItem) -> Seq<u8> {
    |it: BundleItem| item_bytes(it)
}

pub open spec fn bundle_bytes(b: TransitionBundle) -> Seq<u8> {
    le_u64(b.items@.len() as u64) + enc_seq(b.items@, item_full())
}

pub open spec fn anchored_bytes(ab: (Anchor, TransitionBundle)) -> Seq<u8> {
    ab.0.txid.bytes@ + enc_bytes(ab.0.mpc_proof@) + bundle_bytes(ab.1)
}

pub open spec fn anchored_full() -> spec_fn((Anchor, TransitionBundle)) -> Seq<u8> {
    |ab: (Anchor, TransitionBundle)| anchored_bytes(ab)
}

pub open spec fn terminal_seal_bytes(t: TerminalSeal) -> Seq<u8> {
    match t {
        TerminalSeal::ConcealedUtxo(h) => seq![0u8] + h.0.bytes@,
        TerminalSeal::WitnessVout(v) => seq![1u8, method_byte(v.method)] + le_u32(v.vout) + le_u64(v.blinding),
    }
}

pub open spec fn endpoint_full() -> spec_fn((Digest, TerminalSeal)) -> Seq<u8> {
    |e: (Digest, TerminalSeal)| e.0.bytes@ + terminal_seal_bytes(e.1)
}

pub open spec fn extension_full() -> spec_fn(Extension) -> Seq<u8> {
    |e: Extension| extension_bytes(e)
}

/// The canonical encoding of a consignment; its first byte is the version.
pub open spec fn consignment_bytes(c: FullConsignment) -> Seq<u8> {
    seq![c.version] + enc_bytes(c.schema.data@) + genesis_bytes(c.genesis)
        + le_u64(c.endpoints@.len() as u64) + enc_seq(c.endpoints@, endpoint_full())
        + le_u64(c.anchored_bundles@.len() as u64) + enc_seq(c.anchored_bundles@, anchored_full())
        + le_u64(c.state_extensions@.len() as u64) + enc_seq(c.state_extensions@, extension_full())
}

pub open spec fn consignment_tag() -> Seq<u8> {
    "rgb:consignment".spec_bytes()
}

/// The consignment id: the tagged hash of the consignment's encoding.
pub open spec fn consignment_id(c: FullConsignment) -> Seq<u8> {
    tagged_hash_spec(consignment_tag(), consignment_bytes(c))
}

fn push_assignment(out: &mut Vec<u8>, a: &Assignment)
    ensures
        final(out)@ == old(out)@ + assignment_bytes(*a),
{
    let ghost start = out@;
    match &a.seal {
        SealDef::Revealed(g) => {
            push_u8(out, 0);
            push_graph_seal(out, g);
        },
        SealDef::Concealed(h) => {
            push_u8(out, 1);
            push_digest(out, &h.0);
        },
    }
    match &a.state {
        StateDef::Revealed(b) => {
            push_u8(out, 0);
            push_bytes(out, b);
        },
        StateDef::Concealed(d) => {
            push_u8(out, 1);
            push_digest(out, d);
        },
    }
    assert(out@ =~= start + assignment_bytes(*a));
}

fn push_rights(out: &mut Vec<u8>, rs: &Vec<OwnedRight>)
    ensures
        final(out)@ == old(out)@ + rights_bytes(rs@),
{
    push_u64(out, rs.len() as u64);
    let ghost start = out@;
    let mut i: usize = 0;
    while i < rs.len()
        invariant
            i <= rs@.len(),
            out@ == start + enc_seq(rs@.subrange(0, i as int), right_full()),
        decreases rs@.len() - i,
    {
        let r = &rs[i];
        let ghost before = out@;
        push_u16(out, r.right_type);
        push_u64(out, r.assignments.len() as u64);
        let ghost mid = out@;
        let mut j: usize = 0;
        while j < r.assignments.len()
            invariant
                j <= r.assignments@.len(),
                out@ == mid + enc_seq(r.assignments@.subrange(0, j as int), assignment_full()),
            decreases r.assignments@.len() - j,
        {
            push_assignment(out, &r.assignments[j]);
            proof {
                lemma_enc_seq_step(r.assignments@, j as int, assignment_full());
            }
            j = j + 1;
        }
        proof {
            assert(r.assignments@.subrange(0, r.assignments@.len() as int) =~= r.assignments@);
            assert(out@ =~= before + right_bytes(*r));
            lemma_enc_seq_step(rs@, i as int, right_full());
        }
        i = i + 1;
    }
    assert(rs@.subrange(0, rs@.len() as int) =~= rs@);
}

fn push_transition(out: &mut Vec<u8>, t: &Transition)
    ensures
        final(out)@ == old(out)@ + transition_bytes(*t),
{
    let ghost start = out@;
    push_u16(out, t.transition_type);
    push_parents(out, &t.parent_outputs);
    push_rights(out, &t.owned_rights);
    push_bytes(out, &t.metadata);
    assert(out@ =~= start + transition_bytes(*t));
}

fn push_bundle(out: &mut Vec<u8>, b: &TransitionBundle)
    ensures
        final(out)@ == old(out)@ + bundle_bytes(*b),
{
    push_u64(out, b.items.len() as u64);
    let ghost start = out@;
    let mut i: usize = 0;
    while i < b.items.len()
        invariant
            i <= b.items@.len(),
            out@ == start + enc_seq(b.items@.subrange(0, i as int), item_full()),
        decreases b.items@.len() - i,
    {
        let it = &b.items[i];
        let ghost before = out@;
        push_transition(out, &it.transition);
        push_u64(out, it.inputs.len() as u64);
        let ghost mid = out@;
        let mut j: usize = 0;
        while j < it.inputs.len()
            invariant
                j <= it.inputs@.len(),
                out@ == mid + enc_seq(it.inputs@.subrange(0, j as int), input_enc()),
            decreases it.inputs@.len() - j,
        {
            push_u16(out, it.inputs[j]);
            proof {
                lemma_enc_seq_step(it.inputs@, j as int, input_enc());
            }
            j = j + 1;
        }
        proof {
            assert(it.inputs@.subrange(0, it.inputs@.len() as int) =~= it.inputs@);
            assert(out@ =~= before + item_bytes(*it));
            lemma_enc_seq_step(b.items@, i as int, item_full());
        }
        i = i + 1;
    }
    assert(b.items@.subrange(0, b.items@.len() as int) =~= b.items@);
}

fn push_terminal_seal(out: &mut Vec<u8>, t: &TerminalSeal)
    ensures
        final(out)@ == old(out)@ + terminal_seal_bytes(*t),
{
    let ghost start = out@;
    match t {
        TerminalSeal::ConcealedUtxo(h) => {
            push_u8(out, 0);
            push_digest(out, &h.0);
        },
        TerminalSeal::WitnessVout(v) => {
            push_u8(out, 1);
            match v.method {
                crate::seal::CloseMethod::OpretFirst => push_u8(out, 0),
                crate::seal::CloseMethod::TapretFirst => push_u8(out, 1),
            }
            push_u32(out, v.vout);
            push_u64(out, v.blinding);
        },
    }
    assert(out@ =~= start + terminal_seal_bytes(*t));
}

/// The canonical encoding of a consignment.
pub fn encode_consignment(c: &FullConsignment) -> (r: Vec<u8>)
    ensures
        r@ == consignment_bytes(*c),
{
    let mut out: Vec<u8> = Vec::new();
    push_u8(&mut out, c.version);
    push_bytes(&mut out, &c.schema.data);
    push_digest(&mut out, &c.genesis.schema_id);
    push_rights(&mut out, &c.genesis.owned_rights);
    push_bytes(&mut out, &c.genesis.metadata);

    push_u64(&mut out, c.endpoints.len() as u64);
    let ghost s1 = out@;
    let mut i: usize = 0;
    while i < c.endpoints.len()
        invariant
            i <= c.endpoints@.len(),
            out@ == s1 + enc_seq(c.endpoints@.subrange(0, i as int), endpoint_full()),
        decreases c.endpoints@.len() - i,
    {
        let ghost before = out@;
        push_digest(&mut out, &c.endpoints[i].0);
        push_terminal_seal(&mut out, &c.endpoints[i].1);
        proof {
            assert(out@ =~= before + endpoint_full()(c.endpoints@[i as int]));
            lemma_enc_seq_step(c.endpoints@, i as int, endpoint_full());
        }
        i = i + 1;
    }
    assert(c.endpoints@.subrange(0, c.endpoints@.len() as int) =~= c.endpoints@);

    push_u64(&mut out, c.anchored_bundles.len() as u64);
    let ghost s2 = out@;
    let mut i: usize = 0;
    while i < c.anchored_bundles.len()
        invariant
            i <= c.anchored_bundles@.len(),
            out@ == s2 + enc_seq(c.anchored_bundles@.subrange(0, i as int), anchored_full()),
        decreases c.anchored_bundles@.len() - i,
    {
        let ghost before = out@;
        push_digest(&mut out, &c.anchored_bundles[i].0.txid);
        push_bytes(&mut out, &c.anchored_bundles[i].0.mpc_proof);
        push_bundle(&mut out, &c.anchored_bundles[i].1);
        proof {
            assert(out@ =~= before + anchored_bytes(c.anchored_bundles@[i as int]));
            lemma_enc_seq_step(c.anchored_bundles@, i as int, anchored_full());
        }
        i = i + 1;
    }
    assert(c.anchored_bundles@.subrange(0, c.anchored_bundles@.len() as int) =~= c.anchored_bundles@);

    push_u64(&mut out, c.state_extensions.len() as u64);
    let ghost s3 = out@;
    let mut i: usize = 0;
    while i < c.state_extensions.len()
        invariant
            i <= c.state_extensions@.len(),
            out@ == s3 + enc_seq(c.state_extensions@.subrange(0, i as int), extension_full()),
        decreases c.state_extensions@.len() - i,
    {
        let e = &c.state_extensions[i];
        let ghost before = out@;
        push_u16(&mut out, e.extension_type);
        push_digest(&mut out, &e.contract_id);
        push_rights(&mut out, &e.owned_rights);
        push_bytes(&mut out, &e.metadata);
        proof {
            assert(out@ =~= before + extension_bytes(*e));
            lemma_enc_seq_step(c.state_extensions@, i as int, extension_full());
        }
        i = i + 1;
    }
    assert(c.state_extensions@.subrange(0, c.state_extensions@.len() as int) =~= c.state_extensions@);
    assert(out@ =~= consignment_bytes(*c));
    out
}

/// Tag of the consignment id's commitment domain.
pub struct ConsignmentIdTag;

impl ConsignmentIdTag {
    /// The domain tag under which consignment ids are computed.
    pub fn tag() -> (r: &'static str)
        ensures
            r.spec_bytes() == consignment_tag(),
    {
        "rgb:consignment"
    }
}

/// Unique consignment identifier: the commitment hash of its content.
#[derive(Clone, Copy, Debug)]
pub struct ConsignmentId(pub Digest);

impl FullConsignment {
    /// The consignment id, computed afresh from the current content.
    pub fn id(&self) -> (r: ConsignmentId)
        ensures
            r.0.bytes@ == consignment_id(*self),
    {
        let bytes = encode_consignment(self);
        ConsignmentId(tagged_hash(ConsignmentIdTag::tag(), &bytes))
    }
}

/// The consignment id is a function of the consignment's content: two
/// consignments with the same encoding have the same id.
pub proof fn lemma_id_deterministic(a: FullConsignment, b: FullConsignment)
    requires
        consignment_bytes(a) == consignment_bytes(b),
    ensures
        consignment_id(a) == consignment_id(b),
{
}

} // verus!
