//! Decoding of the canonical binary encoding. A decoded value re-encodes to
//! exactly the bytes it was read from; a consignment of any version but the
//! current one is rejected.
use vstd::prelude::*;

use crate::bundle::{input_enc, Anchor, BundleItem, TransitionBundle};
use crate::consignment::{FullConsignment, Schema};
use crate::encode::{
    anchored_bytes, anchored_full, assignment_bytes, assignment_full, bundle_bytes,
    consignment_bytes, endpoint_full, extension_bytes, extension_full, item_bytes, item_full,
    right_bytes, right_full, rights_bytes, seal_def_bytes, state_bytes, terminal_seal_bytes,
    transition_bytes,
};
use crate::hash::{enc_bytes, enc_seq, lemma_enc_seq_push, le_u16, le_u32, le_u64, Digest};
use crate::node::{
    parent_bytes, parent_enc, Assignment, Extension, Genesis, OwnedRight, ParentOutput, SealDef,
    StateDef, Transition,
};
use crate::seal::{graph_seal_bytes, CloseMethod, GraphSeal, SecretSeal, TerminalSeal, TxPtr, VoutSeal};

verus! {

/// Why bytes could not be decoded.
#[derive(Clone, Copy, Debug, PartialEq, Eq, Structural)]
pub enum DecodeError {
    /// The input ended inside a value.
    UnexpectedEnd,
    /// A variant tag outside the known ones.
    InvalidTag(u8),
    /// A consignment of a version this library does not read.
    UnsupportedVersion(u8),
    /// Bytes were left after the value.
    TrailingData,
}

/// `d[pos..p]` holds exactly the encoding `enc`.
pub open spec fn reads(d: Seq<u8>, pos: int, p: int, enc: Seq<u8>) -> bool {
    pos <= p <= d.len() && d.subrange(pos, p) == enc
}

proof fn lemma_cat(d: Seq<u8>, a: int, b: int, c: int)
    requires
        0 <= a <= b <= c <= d.len(),
    ensures
        d.subrange(a, c) == d.subrange(a, b) + d.subrange(b, c),
{
    assert(d.subrange(a, c) =~= d.subrange(a, b) + d.subrange(b, c));
}

fn read_u8(d: &Vec<u8>, pos: usize) -> (r: Result<(u8, usize), DecodeError>)
    requires
        pos <= d@.len(),
    ensures
        r matches Ok((x, p)) ==> reads(d@, pos as int, p as int, seq![x]),
{
    if pos < d.len() {
        assert(d@.subrange(pos as int, pos + 1) =~= seq![d@[pos as int]]);
        Ok((d[pos], pos + 1))
    } else {
        Err(DecodeError::UnexpectedEnd)
    }
}

fn read_u16(d: &Vec<u8>, pos: usize) -> (r: Result<(u16, usize), DecodeError>)
    requires
        pos <= d@.len(),
    ensures
        r matches Ok((x, p)) ==> reads(d@, pos as int, p as int, le_u16(x)),
{
    if d.len() - pos < 2 {
        return Err(DecodeError::UnexpectedEnd);
    }
    let b0 = d[pos];
    let b1 = d[pos + 1];
    let x: u16 = (b0 as u16) | ((b1 as u16) << 8u16);
    assert((x & 0xff) as u8 == b0 && ((x >> 8u16) & 0xff) as u8 == b1) by (bit_vector)
        requires
            x == (b0 as u16) | ((b1 as u16) << 8u16),
    ;
    assert(d@.subrange(pos as int, pos + 2) =~= le_u16(x));
    Ok((x, pos + 2))
}

fn read_u32(d: &Vec<u8>, pos: usize) -> (r: Result<(u32, usize), DecodeError>)
    requires
        pos <= d@.len(),
    ensures
        r matches Ok((x, p)) ==> reads(d@, pos as int, p as int, le_u32(x)),
{
    if d.len() - pos < 4 {
        return Err(DecodeError::UnexpectedEnd);
    }
    let b0 = d[pos];
    let b1 = d[pos + 1];
    let b2 = d[pos + 2];
    let b3 = d[pos + 3];
    let x: u32 = (b0 as u32) | ((b1 as u32) << 8u32) | ((b2 as u32) << 16u32) | ((b3 as u32) << 24u32);
    assert((x & 0xff) as u8 == b0 && ((x >> 8u32) & 0xff) as u8 == b1 && ((x >> 16u32) & 0xff) as u8 == b2
        && ((x >> 24u32) & 0xff) as u8 == b3) by (bit_vector)
        requires
            x == (b0 as u32) | ((b1 as u32) << 8u32) | ((b2 as u32) << 16u32) | ((b3 as u32) << 24u32),
    ;
    assert(d@.subrange(pos as int, pos + 4) =~= le_u32(x));
    Ok((x, pos + 4))
}

fn read_u64(d: &Vec<u8>, pos: usize) -> (r: Result<(u64, usize), DecodeError>)
    requires
        pos <= d@.len(),
    ensures
        r matches Ok((x, p)) ==> reads(d@, pos as int, p as int, le_u64(x)),
{
    if d.len() - pos < 8 {
        return Err(DecodeError::UnexpectedEnd);
    }
    let b0 = d[pos];
    let b1 = d[pos + 1];
    let b2 = d[pos + 2];
    let b3 = d[pos + 3];
    let b4 = d[pos + 4];
    let b5 = d[pos + 5];
    let b6 = d[pos + 6];
    let b7 = d[pos + 7];
    let x: u64 = (b0 as u64) | ((b1 as u64) << 8u64) | ((b2 as u64) << 16u64) | ((b3 as u64) << 24u64)
        | ((b4 as u64) << 32u64) | ((b5 as u64) << 40u64) | ((b6 as u64) << 48u64) | ((b7 as u64) << 56u64);
    assert((x & 0xff) as u8 == b0 && ((x >> 8u64) & 0xff) as u8 == b1 && ((x >> 16u64) & 0xff) as u8 == b2
        && ((x >> 24u64) & 0xff) as u8 == b3 && ((x >> 32u64) & 0xff) as u8 == b4
        && ((x >> 40u64) & 0xff) as u8 == b5 && ((x >> 48u64) & 0xff) as u8 == b6
        && ((x >> 56u64) & 0xff) as u8 == b7) by (bit_vector)
        requires
            x == (b0 as u64) | ((b1 as u64) << 8u64) | ((b2 as u64) << 16u64) | ((b3 as u64) << 24u64)
                | ((b4 as u64) << 32u64) | ((b5 as u64) << 40u64) | ((b6 as u64) << 48u64) | ((b7 as u64) << 56u64),
    ;
    assert(d@.subrange(pos as int, pos + 8) =~= le_u64(x));
    Ok((x, pos + 8))
}

fn read_digest(d: &Vec<u8>, pos: usize) -> (r: Result<(Digest, usize), DecodeError>)
    requires
        pos <= d@.len(),
    ensures
        r matches Ok((x, p)) ==> reads(d@, pos as int, p as int, x.bytes@),
{
    if d.len() - pos < 32 {
        return Err(DecodeError::UnexpectedEnd);
    }
    let mut a: [u8; 32] = [0u8; 32];
    let len = d.len();
    let mut i: usize = 0;
    while i < 32
        invariant
            i <= 32,
            len == d@.len(),
            pos + 32 <= d@.len(),
            forall|k: int| 0 <= k < i ==> a@[k] == d@[pos + k],
        decreases 32 - i,
    {
        a[i] = d[pos + i];
        i = i + 1;
    }
    assert(a@ =~= d@.subrange(pos as int, pos + 32));
    Ok((Digest { bytes: a }, pos + 32))
}

/// Reads a count, which must not exceed the bytes left.
fn read_len(d: &Vec<u8>, pos: usize) -> (r: Result<(usize, usize), DecodeError>)
    requires
        pos <= d@.len(),
    ensures
        r matches Ok((n, p)) ==> reads(d@, pos as int, p as int, le_u64(n as u64)) && n <= d@.len(),
{
    let (n, p) = read_u64(d, pos)?;
    if n > d.len() as u64 {
        return Err(DecodeError::UnexpectedEnd);
    }
    Ok((n as usize, p))
}

fn read_bytes(d: &Vec<u8>, pos: usize) -> (r: Result<(Vec<u8>, usize), DecodeError>)
    requires
        pos <= d@.len(),
    ensures
        r matches Ok((x, p)) ==> reads(d@, pos as int, p as int, enc_bytes(x@)),
{
    let (n, at0) = read_len(d, pos)?;
    if d.len() - at0 < n {
        return Err(DecodeError::UnexpectedEnd);
    }
    let mut v: Vec<u8> = Vec::new();
    let len = d.len();
    let mut i: usize = 0;
    while i < n
        invariant
            i <= n,
            len == d@.len(),
            at0 + n <= d@.len(),
            v@ == d@.subrange(at0 as int, at0 + i),
        decreases n - i,
    {
        v.push(d[at0 + i]);
        i = i + 1;
        assert(v@ =~= d@.subrange(at0 as int, at0 + i));
    }
    proof {
        lemma_cat(d@, pos as int, at0 as int, at0 + n);
    }
    Ok((v, at0 + n))
}

fn read_method(d: &Vec<u8>, pos: usize) -> (r: Result<(CloseMethod, usize), DecodeError>)
    requires
        pos <= d@.len(),
    ensures
        r matches Ok((m, p)) ==> reads(d@, pos as int, p as int, seq![crate::seal::method_byte(m)]),
{
    let (b, p) = read_u8(d, pos)?;
    if b == 0 {
        Ok((CloseMethod::OpretFirst, p))
    } else if b == 1 {
        Ok((CloseMethod::TapretFirst, p))
    } else {
        Err(DecodeError::InvalidTag(b))
    }
}

fn read_graph_seal(d: &Vec<u8>, pos: usize) -> (r: Result<(GraphSeal, usize), DecodeError>)
    requires
        pos <= d@.len(),
    ensures
        r matches Ok((x, p)) ==> reads(d@, pos as int, p as int, graph_seal_bytes(x)),
{
    let (method, at1) = read_method(d, pos)?;
    let (tag, at2) = read_u8(d, at1)?;
    let (txid, at3) = if tag == 0 {
        (TxPtr::WitnessTx, at2)
    } else if tag == 1 {
        let (t, p) = read_digest(d, at2)?;
        proof {
            lemma_cat(d@, at1 as int, at2 as int, p as int);
        }
        (TxPtr::Txid(t), p)
    } else {
        return Err(DecodeError::InvalidTag(tag));
    };
    let (vout, at4) = read_u32(d, at3)?;
    let (blinding, at5) = read_u64(d, at4)?;
    let s = GraphSeal { method, txid, vout, blinding };
    proof {
        lemma_cat(d@, pos as int, at1 as int, at3 as int);
        lemma_cat(d@, pos as int, at3 as int, at4 as int);
        lemma_cat(d@, pos as int, at4 as int, at5 as int);
        assert(d@.subrange(pos as int, at5 as int) =~= graph_seal_bytes(s));
    }
    Ok((s, at5))
}

fn read_assignment(d: &Vec<u8>, pos: usize) -> (r: Result<(Assignment, usize), DecodeError>)
    requires
        pos <= d@.len(),
    ensures
        r matches Ok((x, p)) ==> reads(d@, pos as int, p as int, assignment_bytes(x)),
{
    let (tag, at1) = read_u8(d, pos)?;
    let (seal, at2) = if tag == 0 {
        let (g, p) = read_graph_seal(d, at1)?;
        (SealDef::Revealed(g), p)
    } else if tag == 1 {
        let (h, p) = read_digest(d, at1)?;
        (SealDef::Concealed(SecretSeal(h)), p)
    } else {
        return Err(DecodeError::InvalidTag(tag));
    };
    proof {
        lemma_cat(d@, pos as int, at1 as int, at2 as int);
        assert(d@.subrange(pos as int, at2 as int) =~= seal_def_bytes(seal));
    }
    let (tag, at3) = read_u8(d, at2)?;
    let (state, at4) = if tag == 0 {
        let (b, p) = read_bytes(d, at3)?;
        (StateDef::Revealed(b), p)
    } else if tag == 1 {
        let (h, p) = read_digest(d, at3)?;
        (StateDef::Concealed(h), p)
    } else {
        return Err(DecodeError::InvalidTag(tag));
    };
    proof {
        lemma_cat(d@, at2 as int, at3 as int, at4 as int);
        assert(d@.subrange(at2 as int, at4 as int) =~= state_bytes(state));
        lemma_cat(d@, pos as int, at2 as int, at4 as int);
    }
    Ok((Assignment { seal, state }, at4))
}

fn read_right(d: &Vec<u8>, pos: usize) -> (r: Result<(OwnedRight, usize), DecodeError>)
    requires
        pos <= d@.len(),
    ensures
        r matches Ok((x, p)) ==> reads(d@, pos as int, p as int, right_bytes(x)),
{
    let (right_type, at1) = read_u16(d, pos)?;
    let (n, at2) = read_len(d, at1)?;
    proof {
        lemma_cat(d@, pos as int, at1 as int, at2 as int);
    }
    let mut assignments: Vec<Assignment> = Vec::new();
    let mut p = at2;
    let mut i: usize = 0;
    while i < n
        invariant
            pos <= at2 <= p <= d@.len(),
            i <= n,
            assignments@.len() == i,
            d@.subrange(pos as int, p as int) == le_u16(right_type) + le_u64(n as u64) + enc_seq(assignments@, assignment_full()),
        decreases n - i,
    {
        let (a, q) = read_assignment(d, p)?;
        proof {
            lemma_cat(d@, pos as int, p as int, q as int);
            lemma_enc_seq_push(assignments@, a, assignment_full());
        }
        assignments.push(a);
        p = q;
        i = i + 1;
    }
    let x = OwnedRight { right_type, assignments };
    assert(d@.subrange(pos as int, p as int) =~= right_bytes(x));
    Ok((x, p))
}

fn read_rights(d: &Vec<u8>, pos: usize) -> (r: Result<(Vec<OwnedRight>, usize), DecodeError>)
    requires
        pos <= d@.len(),
    ensures
        r matches Ok((x, p)) ==> reads(d@, pos as int, p as int, rights_bytes(x@)),
{
    let (n, at1) = read_len(d, pos)?;
    let mut rights: Vec<OwnedRight> = Vec::new();
    let mut p = at1;
    let mut i: usize = 0;
    while i < n
        invariant
            pos <= at1 <= p <= d@.len(),
            i <= n,
            rights@.len() == i,
            d@.subrange(pos as int, p as int) == le_u64(n as u64) + enc_seq(rights@, right_full()),
        decreases n - i,
    {
        let (x, q) = read_right(d, p)?;
        proof {
            lemma_cat(d@, pos as int, p as int, q as int);
            lemma_enc_seq_push(rights@, x, right_full());
        }
        rights.push(x);
        p = q;
        i = i + 1;
    }
    assert(d@.subrange(pos as int, p as int) =~= rights_bytes(rights@));
    Ok((rights, p))
}

fn read_parents(d: &Vec<u8>, pos: usize) -> (r: Result<(Vec<ParentOutput>, usize), DecodeError>)
    requires
        pos <= d@.len(),
    ensures
        r matches Ok((x, p)) ==> reads(d@, pos as int, p as int, le_u64(x@.len() as u64) + enc_seq(x@, parent_enc())),
{
    let (n, at1) = read_len(d, pos)?;
    let mut out: Vec<ParentOutput> = Vec::new();
    let mut p = at1;
    let mut i: usize = 0;
    while i < n
        invariant
            pos <= at1 <= p <= d@.len(),
            i <= n,
            out@.len() == i,
            d@.subrange(pos as int, p as int) == le_u64(n as u64) + enc_seq(out@, parent_enc()),
        decreases n - i,
    {
        let (node_id, q1) = read_digest(d, p)?;
        let (right_type, q2) = read_u16(d, q1)?;
        let (no, q3) = read_u16(d, q2)?;
        let x = ParentOutput { node_id, right_type, no };
        proof {
            lemma_cat(d@, p as int, q1 as int, q2 as int);
            lemma_cat(d@, p as int, q2 as int, q3 as int);
            assert(d@.subrange(p as int, q3 as int) =~= parent_bytes(x));
            lemma_cat(d@, pos as int, p as int, q3 as int);
            lemma_enc_seq_push(out@, x, parent_enc());
        }
        out.push(x);
        p = q3;
        i = i + 1;
    }
    Ok((out, p))
}

fn read_inputs(d: &Vec<u8>, pos: usize) -> (r: Result<(Vec<u16>, usize), DecodeError>)
    requires
        pos <= d@.len(),
    ensures
        r matches Ok((x, p)) ==> reads(d@, pos as int, p as int, le_u64(x@.len() as u64) + enc_seq(x@, input_enc())),
{
    let (n, at1) = read_len(d, pos)?;
    let mut out: Vec<u16> = Vec::new();
    let mut p = at1;
    let mut i: usize = 0;
    while i < n
        invariant
            pos <= at1 <= p <= d@.len(),
            i <= n,
            out@.len() == i,
            d@.subrange(pos as int, p as int) == le_u64(n as u64) + enc_seq(out@, input_enc()),
        decreases n - i,
    {
        let (x, q) = read_u16(d, p)?;
        proof {
            lemma_cat(d@, pos as int, p as int, q as int);
            lemma_enc_seq_push(out@, x, input_enc());
        }
        out.push(x);
        p = q;
        i = i + 1;
    }
    Ok((out, p))
}

fn read_transition(d: &Vec<u8>, pos: usize) -> (r: Result<(Transition, usize), DecodeError>)
    requires
        pos <= d@.len(),
    ensures
        r matches Ok((x, p)) ==> reads(d@, pos as int, p as int, transition_bytes(x)),
{
    let (transition_type, at1) = read_u16(d, pos)?;
    let (parent_outputs, at2) = read_parents(d, at1)?;
    let (owned_rights, at3) = read_rights(d, at2)?;
    let (metadata, at4) = read_bytes(d, at3)?;
    let x = Transition { transition_type, parent_outputs, owned_rights, metadata };
    proof {
        lemma_cat(d@, pos as int, at1 as int, at2 as int);
        lemma_cat(d@, pos as int, at2 as int, at3 as int);
        lemma_cat(d@, pos as int, at3 as int, at4 as int);
        assert(d@.subrange(pos as int, at4 as int) =~= transition_bytes(x));
    }
    Ok((x, at4))
}

fn read_bundle(d: &Vec<u8>, pos: usize) -> (r: Result<(TransitionBundle, usize), DecodeError>)
    requires
        pos <= d@.len(),
    ensures
        r matches Ok((x, p)) ==> reads(d@, pos as int, p as int, bundle_bytes(x)),
{
    let (n, at1) = read_len(d, pos)?;
    let mut items: Vec<BundleItem> = Vec::new();
    let mut p = at1;
    let mut i: usize = 0;
    while i < n
        invariant
            pos <= at1 <= p <= d@.len(),
            i <= n,
            items@.len() == i,
            d@.subrange(pos as int, p as int) == le_u64(n as u64) + enc_seq(items@, item_full()),
        decreases n - i,
    {
        let (transition, q1) = read_transition(d, p)?;
        let (inputs, q2) = read_inputs(d, q1)?;
        let x = BundleItem { transition, inputs };
        proof {
            lemma_cat(d@, p as int, q1 as int, q2 as int);
            assert(d@.subrange(p as int, q2 as int) =~= item_bytes(x));
            lemma_cat(d@, pos as int, p as int, q2 as int);
            lemma_enc_seq_push(items@, x, item_full());
        }
        items.push(x);
        p = q2;
        i = i + 1;
    }
    let b = TransitionBundle { items };
    assert(d@.subrange(pos as int, p as int) =~= bundle_bytes(b));
    Ok((b, p))
}

fn read_terminal_seal(d: &Vec<u8>, pos: usize) -> (r: Result<(TerminalSeal, usize), DecodeError>)
    requires
        pos <= d@.len(),
    ensures
        r matches Ok((x, p)) ==> reads(d@, pos as int, p as int, terminal_seal_bytes(x)),
{
    let (tag, at1) = read_u8(d, pos)?;
    if tag == 0 {
        let (h, at2) = read_digest(d, at1)?;
        let x = TerminalSeal::ConcealedUtxo(SecretSeal(h));
        proof {
            lemma_cat(d@, pos as int, at1 as int, at2 as int);
            assert(d@.subrange(pos as int, at2 as int) =~= terminal_seal_bytes(x));
        }
        Ok((x, at2))
    } else if tag == 1 {
        let (method, at2) = read_method(d, at1)?;
        let (vout, at3) = read_u32(d, at2)?;
        let (blinding, at4) = read_u64(d, at3)?;
        let x = TerminalSeal::WitnessVout(VoutSeal { method, vout, blinding });
        proof {
            lemma_cat(d@, pos as int, at1 as int, at2 as int);
            lemma_cat(d@, pos as int, at2 as int, at3 as int);
            lemma_cat(d@, pos as int, at3 as int, at4 as int);
            assert(d@.subrange(pos as int, at4 as int) =~= terminal_seal_bytes(x));
        }
        Ok((x, at4))
    } else {
        Err(DecodeError::InvalidTag(tag))
    }
}

fn read_extension(d: &Vec<u8>, pos: usize) -> (r: Result<(Extension, usize), DecodeError>)
    requires
        pos <= d@.len(),
    ensures
        r matches Ok((x, p)) ==> reads(d@, pos as int, p as int, extension_bytes(x)),
{
    let (extension_type, at1) = read_u16(d, pos)?;
    let (contract_id, at2) = read_digest(d, at1)?;
    let (owned_rights, at3) = read_rights(d, at2)?;
    let (metadata, at4) = read_bytes(d, at3)?;
    let x = Extension { extension_type, contract_id, owned_rights, metadata };
    proof {
        lemma_cat(d@, pos as int, at1 as int, at2 as int);
        lemma_cat(d@, pos as int, at2 as int, at3 as int);
        lemma_cat(d@, pos as int, at3 as int, at4 as int);
        assert(d@.subrange(pos as int, at4 as int) =~= extension_bytes(x));
    }
    Ok((x, at4))
}

fn read_endpoints(d: &Vec<u8>, pos: usize) -> (r: Result<(Vec<(Digest, TerminalSeal)>, usize), DecodeError>)
    requires
        pos <= d@.len(),
    ensures
        r matches Ok((x, p)) ==> reads(d@, pos as int, p as int, le_u64(x@.len() as u64) + enc_seq(x@, endpoint_full())),
{
    let (n, at1) = read_len(d, pos)?;
    let mut out: Vec<(Digest, TerminalSeal)> = Vec::new();
    let mut p = at1;
    let mut i: usize = 0;
    while i < n
        invariant
            pos <= at1 <= p <= d@.len(),
            i <= n,
            out@.len() == i,
            d@.subrange(pos as int, p as int) == le_u64(n as u64) + enc_seq(out@, endpoint_full()),
        decreases n - i,
    {
        let (id, q1) = read_digest(d, p)?;
        let (seal, q2) = read_terminal_seal(d, q1)?;
        let x = (id, seal);
        proof {
            lemma_cat(d@, p as int, q1 as int, q2 as int);
            assert(d@.subrange(p as int, q2 as int) =~= endpoint_full()(x));
            lemma_cat(d@, pos as int, p as int, q2 as int);
            lemma_enc_seq_push(out@, x, endpoint_full());
        }
        out.push(x);
        p = q2;
        i = i + 1;
    }
    Ok((out, p))
}

fn read_anchored(d: &Vec<u8>, pos: usize) -> (r: Result<(Vec<(Anchor, TransitionBundle)>, usize), DecodeError>)
    requires
        pos <= d@.len(),
    ensures
        r matches Ok((x, p)) ==> reads(d@, pos as int, p as int, le_u64(x@.len() as u64) + enc_seq(x@, anchored_full())),
{
    let (n, at1) = read_len(d, pos)?;
    let mut out: Vec<(Anchor, TransitionBundle)> = Vec::new();
    let mut p = at1;
    let mut i: usize = 0;
    while i < n
        invariant
            pos <= at1 <= p <= d@.len(),
            i <= n,
            out@.len() == i,
            d@.subrange(pos as int, p as int) == le_u64(n as u64) + enc_seq(out@, anchored_full()),
        decreases n - i,
    {
        let (txid, q1) = read_digest(d, p)?;
        let (mpc_proof, q2) = read_bytes(d, q1)?;
        let (bundle, q3) = read_bundle(d, q2)?;
        let x = (Anchor { txid, mpc_proof }, bundle);
        proof {
            lemma_cat(d@, p as int, q1 as int, q2 as int);
            lemma_cat(d@, p as int, q2 as int, q3 as int);
            assert(d@.subrange(p as int, q3 as int) =~= anchored_bytes(x));
            lemma_cat(d@, pos as int, p as int, q3 as int);
            lemma_enc_seq_push(out@, x, anchored_full());
        }
        out.push(x);
        p = q3;
        i = i + 1;
    }
    Ok((out, p))
}

fn read_extensions(d: &Vec<u8>, pos: usize) -> (r: Result<(Vec<Extension>, usize), DecodeError>)
    requires
        pos <= d@.len(),
    ensures
        r matches Ok((x, p)) ==> reads(d@, pos as int, p as int, le_u64(x@.len() as u64) + enc_seq(x@, extension_full())),
{
    let (n, at1) = read_len(d, pos)?;
    let mut out: Vec<Extension> = Vec::new();
    let mut p = at1;
    let mut i: usize = 0;
    while i < n
        invariant
            pos <= at1 <= p <= d@.len(),
            i <= n,
            out@.len() == i,
            d@.subrange(pos as int, p as int) == le_u64(n as u64) + enc_seq(out@, extension_full()),
        decreases n - i,
    {
        let (x, q) = read_extension(d, p)?;
        proof {
            lemma_cat(d@, pos as int, p as int, q as int);
            lemma_enc_seq_push(out@, x, extension_full());
        }
        out.push(x);
        p = q;
        i = i + 1;
    }
    Ok((out, p))
}

fn read_genesis(d: &Vec<u8>, pos: usize) -> (r: Result<(Genesis, usize), DecodeError>)
    requires
        pos <= d@.len(),
    ensures
        r matches Ok((x, p)) ==> reads(d@, pos as int, p as int, crate::encode::genesis_bytes(x)),
{
    let (schema_id, at1) = read_digest(d, pos)?;
    let (owned_rights, at2) = read_rights(d, at1)?;
    let (metadata, at3) = read_bytes(d, at2)?;
    let x = Genesis { schema_id, owned_rights, metadata };
    proof {
        lemma_cat(d@, pos as int, at1 as int, at2 as int);
        lemma_cat(d@, pos as int, at2 as int, at3 as int);
        assert(d@.subrange(pos as int, at3 as int) =~= crate::encode::genesis_bytes(x));
    }
    Ok((x, at3))
}

/// Decodes a consignment from the whole of `d`, its version first.
#[verifier::rlimit(60)]
fn read_consignment(d: &Vec<u8>) -> (r: Result<FullConsignment, DecodeError>)
    ensures
        d@.len() == 0 ==> r == Err::<FullConsignment, DecodeError>(DecodeError::UnexpectedEnd),
        d@.len() > 0 && d@[0] != 0 ==> r == Err::<FullConsignment, DecodeError>(DecodeError::UnsupportedVersion(d@[0])),
        r matches Ok(c) ==> c.version == 0 && consignment_bytes(c) == d@,
{
    if d.len() == 0 {
        return Err(DecodeError::UnexpectedEnd);
    }
    let version = d[0];
    let at0: usize = 1;
    assert(d@.subrange(0, 1) =~= seq![version]);
    if version != 0 {
        return Err(DecodeError::UnsupportedVersion(version));
    }
    let (data, at1) = read_bytes(d, at0)?;
    let (genesis, at4) = read_genesis(d, at1)?;
    let (endpoints, at5) = read_endpoints(d, at4)?;
    let (anchored_bundles, at6) = read_anchored(d, at5)?;
    let (state_extensions, at7) = read_extensions(d, at6)?;
    if at7 != d.len() {
        return Err(DecodeError::TrailingData);
    }
    let c = FullConsignment {
        version,
        schema: Schema { data },
        genesis,
        endpoints,
        anchored_bundles,
        state_extensions,
    };
    proof {
        lemma_cat(d@, 0, at0 as int, at1 as int);
        lemma_cat(d@, 0, at1 as int, at4 as int);
        lemma_cat(d@, 0, at4 as int, at5 as int);
        lemma_cat(d@, 0, at5 as int, at6 as int);
        lemma_cat(d@, 0, at6 as int, at7 as int);
        assert(d@.subrange(0, d@.len() as int) =~= d@);
        assert(d@ =~= consignment_bytes(c));
    }
    Ok(c)
}

impl FullConsignment {
    /// Decodes a consignment from its canonical encoding. Any version but
    /// the current one is rejected; a decoded consignment re-encodes to
    /// exactly the input.
    pub fn strict_decode(data: &Vec<u8>) -> (r: Result<FullConsignment, DecodeError>)
        ensures
            data@.len() == 0 ==> r == Err::<FullConsignment, DecodeError>(DecodeError::UnexpectedEnd),
            data@.len() > 0 && data@[0] != 0 ==> r == Err::<FullConsignment, DecodeError>(DecodeError::UnsupportedVersion(data@[0])),
            r matches Ok(c) ==> c.version == 0 && consignment_bytes(c) == data@,
    {
        read_consignment(data)
    }
}

} // verus!
