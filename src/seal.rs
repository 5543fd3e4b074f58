//! Single-use seals binding contract state to transaction outputs, in
//! revealed and concealed form.
use vstd::prelude::*;
use vstd::string::StringSliceAdditionalSpecFns;

use crate::hash::{
    le_u32, le_u64, push_digest, push_u32, push_u64, push_u8, tagged_hash,
    tagged_hash_spec, Digest,
};

verus! {

/// Identifier of an on-chain transaction.
pub type Txid = Digest;

/// Commitment scheme which must be used to close a seal.
#[derive(Clone, Copy, Debug, PartialEq, Eq, Structural)]
pub enum CloseMethod {
    OpretFirst,
    TapretFirst,
}

/// Seal definition which re-uses the witness transaction of the node that
/// defines it: only the output number is known.
#[derive(Clone, Copy, Debug, PartialEq, Eq, Structural)]
pub struct VoutSeal {
    /// Close method which must be used to close this seal.
    pub method: CloseMethod,
    /// Transaction output number.
    pub vout: u32,
    /// Blinding factor hiding the seal from brute force over the public set
    /// of transaction outputs.
    pub blinding: u64,
}

/// Relies on rand's `thread_rng().next_u64()`, re-exported by secp256k1: a
/// fresh random value, of which nothing is known.
#[verifier::external_body]
fn random_blinding() -> (r: u64) {
    let mut rng = bitcoin::secp256k1::rand::thread_rng();
    bitcoin::secp256k1::rand::RngCore::next_u64(&mut rng)
}

impl VoutSeal {
    /// New seal for the output `vout` closed with `method`, with a randomly
    /// drawn blinding factor.
    pub fn new(method: CloseMethod, vout: u32) -> (r: VoutSeal)
        ensures
            r.method == method,
            r.vout == vout,
    {
        VoutSeal::with(method, vout, random_blinding())
    }

    /// New opret seal for the output `vout`, with a random blinding factor.
    pub fn new_opret(vout: u32) -> (r: VoutSeal)
        ensures
            r.method == CloseMethod::OpretFirst,
            r.vout == vout,
    {
        VoutSeal::new(CloseMethod::OpretFirst, vout)
    }

    /// New tapret seal for the output `vout`, with a random blinding factor.
    pub fn new_tapret(vout: u32) -> (r: VoutSeal)
        ensures
            r.method == CloseMethod::TapretFirst,
            r.vout == vout,
    {
        VoutSeal::new(CloseMethod::TapretFirst, vout)
    }

    /// Reconstructs an opret seal from its output number and blinding factor.
    pub fn with_opret(vout: u32, blinding: u64) -> (r: VoutSeal)
        ensures
            r == (VoutSeal { method: CloseMethod::OpretFirst, vout, blinding }),
    {
        VoutSeal::with(CloseMethod::OpretFirst, vout, blinding)
    }

    /// Reconstructs a tapret seal from its output number and blinding factor.
    pub fn with_tapret(vout: u32, blinding: u64) -> (r: VoutSeal)
        ensures
            r == (VoutSeal { method: CloseMethod::TapretFirst, vout, blinding }),
    {
        VoutSeal::with(CloseMethod::TapretFirst, vout, blinding)
    }

    /// Reconstructs a seal from its close method, output number and blinding
    /// factor.
    pub fn with(method: CloseMethod, vout: u32, blinding: u64) -> (r: VoutSeal)
        ensures
            r == (VoutSeal { method, vout, blinding }),
    {
        VoutSeal { method, vout, blinding }
    }
}

/// Transaction a graph seal points into.
#[derive(Clone, Copy, Debug)]
pub enum TxPtr {
    /// The witness transaction of the node defining the seal.
    WitnessTx,
    /// An explicit, already known transaction.
    Txid(Txid),
}

/// Revealed seal definition as it stands in a node's assignments.
#[derive(Clone, Copy, Debug)]
pub struct GraphSeal {
    pub method: CloseMethod,
    pub txid: TxPtr,
    pub vout: u32,
    pub blinding: u64,
}

impl From<VoutSeal> for GraphSeal {
    fn from(seal: VoutSeal) -> (r: GraphSeal) {
        GraphSeal { method: seal.method, txid: TxPtr::WitnessTx, vout: seal.vout, blinding: seal.blinding }
    }
}

impl vstd::std_specs::convert::FromSpecImpl<VoutSeal> for GraphSeal {
    open spec fn obeys_from_spec() -> bool {
        true
    }

    open spec fn from_spec(seal: VoutSeal) -> GraphSeal {
        vout_graph_seal(seal)
    }
}

/// The graph seal on the witness transaction that a vout seal stands for.
pub open spec fn vout_graph_seal(seal: VoutSeal) -> GraphSeal {
    GraphSeal { method: seal.method, txid: TxPtr::WitnessTx, vout: seal.vout, blinding: seal.blinding }
}

/// Concealed seal: a one-way commitment to a revealed seal.
#[derive(Clone, Copy, Debug)]
pub struct SecretSeal(pub Digest);

pub open spec fn seal_tag() -> Seq<u8> {
    "rgb:seal".spec_bytes()
}

pub open spec fn method_byte(m: CloseMethod) -> u8 {
    match m {
        CloseMethod::OpretFirst => 0,
        CloseMethod::TapretFirst => 1,
    }
}

/// The bytes a graph seal's concealment commits to.
pub open spec fn graph_seal_bytes(s: GraphSeal) -> Seq<u8> {
    seq![method_byte(s.method)] + match s.txid {
        TxPtr::WitnessTx => seq![0u8],
        TxPtr::Txid(t) => seq![1u8] + t.bytes@,
    } + le_u32(s.vout) + le_u64(s.blinding)
}

/// Digest of the concealed form of a revealed seal.
pub open spec fn graph_seal_digest(s: GraphSeal) -> Seq<u8> {
    tagged_hash_spec(seal_tag(), graph_seal_bytes(s))
}

impl GraphSeal {
    /// Conceals the seal into its one-way commitment.
    pub fn conceal(&self) -> (r: SecretSeal)
        ensures
            r.0.bytes@ == graph_seal_digest(*self),
    {
        let mut buf: Vec<u8> = Vec::new();
        push_graph_seal(&mut buf, self);
        assert(buf@ =~= graph_seal_bytes(*self));
        SecretSeal(tagged_hash("rgb:seal", &buf))
    }
}

/// Appends the bytes of a graph seal.
pub(crate) fn push_graph_seal(out: &mut Vec<u8>, s: &GraphSeal)
    ensures
        final(out)@ == old(out)@ + graph_seal_bytes(*s),
{
    let ghost start = out@;
    match s.method {
        CloseMethod::OpretFirst => push_u8(out, 0),
        CloseMethod::TapretFirst => push_u8(out, 1),
    }
    match &s.txid {
        TxPtr::WitnessTx => push_u8(out, 0),
        TxPtr::Txid(t) => {
            push_u8(out, 1);
            push_digest(out, t);
        },
    }
    push_u32(out, s.vout);
    push_u64(out, s.blinding);
    assert(out@ =~= start + graph_seal_bytes(*s));
}

/// Seal of an endpoint: either an external output in concealed form, or an
/// output of the witness transaction, whose id is not known yet.
#[derive(Clone, Copy, Debug)]
pub enum TerminalSeal {
    /// External transaction output in concealed form.
    ConcealedUtxo(SecretSeal),
    /// Output of the witness transaction.
    WitnessVout(VoutSeal),
}

/// Digest of the canonical concealed form of a terminal seal.
pub open spec fn terminal_seal_digest(t: TerminalSeal) -> Seq<u8> {
    match t {
        TerminalSeal::ConcealedUtxo(h) => h.0.bytes@,
        TerminalSeal::WitnessVout(v) => graph_seal_digest(vout_graph_seal(v)),
    }
}

impl TerminalSeal {
    /// Terminal seal on output `vout` of the witness transaction, with a
    /// random blinding factor.
    pub fn new_vout(method: CloseMethod, vout: u32) -> (r: TerminalSeal)
        ensures
            r matches TerminalSeal::WitnessVout(v) && v.method == method && v.vout == vout,
    {
        TerminalSeal::WitnessVout(VoutSeal::new(method, vout))
    }

    /// Terminal seal for a graph seal: a seal on the witness transaction
    /// keeps its output and blinding; one on a known transaction is concealed.
    pub fn from_graph_seal(seal: GraphSeal) -> (r: TerminalSeal)
        ensures
            match seal.txid {
                TxPtr::WitnessTx => r == TerminalSeal::WitnessVout(
                    VoutSeal { method: seal.method, vout: seal.vout, blinding: seal.blinding },
                ),
                TxPtr::Txid(_) => r matches TerminalSeal::ConcealedUtxo(h) && h.0.bytes@
                    == graph_seal_digest(seal),
            },
            terminal_seal_digest(r) == graph_seal_digest(seal),
    {
        match seal.txid {
            TxPtr::WitnessTx => TerminalSeal::WitnessVout(
                VoutSeal::with(seal.method, seal.vout, seal.blinding),
            ),
            TxPtr::Txid(_) => TerminalSeal::ConcealedUtxo(seal.conceal()),
        }
    }

    /// The canonical concealed form, the same whichever variant holds it.
    pub fn conceal(&self) -> (r: SecretSeal)
        ensures
            r.0.bytes@ == terminal_seal_digest(*self),
    {
        match self {
            TerminalSeal::ConcealedUtxo(h) => *h,
            TerminalSeal::WitnessVout(v) => GraphSeal::from(*v).conceal(),
        }
    }
}

} // verus!
