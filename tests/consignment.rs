use bitcoin::hashes::{sha256, HashEngine};
use rgb_consignment::bundle::{Anchor, BundleItem, TransitionBundle};
use rgb_consignment::consignment::{ConsistencyError, FullConsignment, Schema};
use rgb_consignment::decode::DecodeError;
use rgb_consignment::encode::{encode_consignment, ConsignmentIdTag};
use rgb_consignment::hash::{tagged_hash, Digest};
use rgb_consignment::node::{
    Assignment, Extension, Genesis, OwnedRight, ParentOutput, SealDef, StateDef, Transition,
};
use rgb_consignment::seal::{CloseMethod, GraphSeal, SecretSeal, TerminalSeal, TxPtr, VoutSeal};

const MIDSTATE_CONSIGNMENT_ID: [u8; 32] = [
    8, 36, 37, 167, 51, 70, 76, 241, 171, 132, 169, 56, 76, 108, 174, 226, 197, 98, 75, 254, 29,
    125, 170, 233, 184, 121, 13, 183, 90, 51, 134, 6,
];

const RIGHT: u16 = 1;
const TRANSFER: u16 = 10;

fn bytes_of(h: sha256::Hash) -> [u8; 32] {
    <sha256::Hash as bitcoin::hashes::Hash>::to_byte_array(h)
}

fn digest(b: u8) -> Digest {
    Digest { bytes: [b; 32] }
}

fn s1() -> VoutSeal {
    VoutSeal::with(CloseMethod::TapretFirst, 0, 0x1122_3344_5566_7788)
}

fn genesis() -> Genesis {
    let seal = GraphSeal { method: CloseMethod::OpretFirst, txid: TxPtr::Txid(digest(7)), vout: 1, blinding: 42 };
    Genesis {
        schema_id: digest(3),
        owned_rights: vec![OwnedRight {
            right_type: RIGHT,
            assignments: vec![Assignment { seal: SealDef::Revealed(seal), state: StateDef::Revealed(vec![100]) }],
        }],
        metadata: vec![9, 9],
    }
}

fn transition(g: &Genesis) -> Transition {
    Transition {
        transition_type: TRANSFER,
        parent_outputs: vec![ParentOutput { node_id: g.node_id(), right_type: RIGHT, no: 0 }],
        owned_rights: vec![OwnedRight {
            right_type: RIGHT,
            assignments: vec![Assignment {
                seal: SealDef::Revealed(GraphSeal::from(s1())),
                state: StateDef::Revealed(vec![1, 2, 3]),
            }],
        }],
        metadata: vec![],
    }
}

fn chain() -> (Genesis, Transition, FullConsignment) {
    let g = genesis();
    let t = transition(&g);
    let bundle = TransitionBundle { items: vec![BundleItem { transition: t.clone(), inputs: vec![0] }] };
    let bid = bundle.bundle_id();
    let anchor = Anchor { txid: digest(5), mpc_proof: vec![1, 2] };
    let c = FullConsignment::with(
        Schema { data: vec![0xAA] },
        g.clone(),
        vec![(bid, TerminalSeal::WitnessVout(s1()))],
        vec![(anchor, bundle)],
        vec![],
    );
    (g, t, c)
}

fn contains(ids: &[Digest], d: &Digest) -> bool {
    ids.iter().any(|x| x == d)
}

#[test]
fn test_consignment_id_midstate() {
    let midstate = sha256::Midstate::hash_tag(b"rgb:consignment");
    assert_eq!(midstate.to_byte_array(), MIDSTATE_CONSIGNMENT_ID);
    assert_eq!(ConsignmentIdTag::tag(), "rgb:consignment");

    let (_, _, c) = chain();
    let mut engine = sha256::HashEngine::from_midstate(sha256::Midstate::from_byte_array(MIDSTATE_CONSIGNMENT_ID), 64);
    engine.input(&encode_consignment(&c));
    let expected = bytes_of(<sha256::Hash as bitcoin::hashes::Hash>::from_engine(engine));
    assert_eq!(c.id().0.bytes, expected);
}

#[test]
fn tagged_hash_is_bip340_style() {
    let msg = vec![1u8, 2, 3];
    let tag = bytes_of(<sha256::Hash as bitcoin::hashes::Hash>::hash(b"rgb:seal"));
    let mut data = Vec::new();
    data.extend_from_slice(&tag);
    data.extend_from_slice(&tag);
    data.extend_from_slice(&msg);
    let expected = bytes_of(<sha256::Hash as bitcoin::hashes::Hash>::hash(&data));
    assert_eq!(tagged_hash("rgb:seal", &msg).bytes, expected);
    assert_ne!(tagged_hash("rgb:state", &msg).bytes, expected);
}

#[test]
fn two_node_chain_scenario() {
    let (g, t, mut c) = chain();
    let ids = c.node_ids();
    assert_eq!(ids.len(), 2);
    assert!(contains(&ids, &g.node_id()));
    assert!(contains(&ids, &t.node_id()));

    match c.endpoint_transition_by_id(t.node_id()) {
        Ok(found) => assert!(found.node_id() == t.node_id()),
        Err(_) => panic!("endpoint transition not found"),
    }

    let expose = vec![TerminalSeal::WitnessVout(s1())];
    assert_eq!(c.finalize(&expose), 0);
    assert_eq!(c.endpoints.len(), 1);

    let (_, _, mut c2) = chain();
    let count = c2.finalize(&vec![]);
    assert!(count >= 1);
    assert_eq!(count, 2);
    assert!(c2.endpoints.is_empty());
    let a = &c2.anchored_bundles[0].1.items[0].transition.owned_rights[0].assignments[0];
    assert!(matches!(a.state, StateDef::Concealed(_)));
    assert!(matches!(a.seal, SealDef::Concealed(_)));
}

#[test]
fn endpoint_guard_rejects_interior_nodes() {
    let (g, _, c) = chain();
    match c.endpoint_transition_by_id(g.node_id()) {
        Err(ConsistencyError::NotEndpoint(id)) => assert!(id == g.node_id()),
        _ => panic!("genesis accepted as an endpoint"),
    }
    match c.endpoint_transition_by_id(digest(0xEE)) {
        Err(ConsistencyError::NotEndpoint(_)) => {}
        _ => panic!("unknown id accepted as an endpoint"),
    }
}

#[test]
fn chain_iter_from_non_endpoint_reports_error() {
    let (g, _, c) = chain();
    let mut it = c.chain_iter(g.node_id(), RIGHT);
    assert!(it.is_err());
    assert!(it.next().is_none());
    match it.into_result() {
        Err(ConsistencyError::NotEndpoint(id)) => assert!(id == g.node_id()),
        _ => panic!("expected NotEndpoint"),
    }
}

#[test]
fn chain_iter_walks_towards_genesis() {
    let (g, t, c) = chain();
    let mut it = c.chain_iter(t.node_id(), RIGHT);
    assert!(!it.is_err());
    match it.next() {
        Some((found, txid)) => {
            assert!(found.node_id() == t.node_id());
            assert!(txid == digest(5));
        }
        None => panic!("chain is empty"),
    }
    assert!(it.next().is_none());
    match it.into_result() {
        Err(ConsistencyError::TransitionAbsent(id)) => assert!(id == g.node_id()),
        _ => panic!("genesis is no transition"),
    }
}

#[test]
fn finalize_twice_conceals_nothing_more() {
    let (_, _, mut c) = chain();
    assert_eq!(c.finalize(&vec![]), 2);
    assert_eq!(c.finalize(&vec![]), 0);
}

#[test]
fn finalize_keeps_bundle_and_node_ids() {
    let (_, _, mut c) = chain();
    let before_bundle = c.anchored_bundles[0].1.bundle_id();
    let before_nodes = c.node_ids();
    let before_id = c.id();
    c.finalize(&vec![]);
    assert_eq!(c.anchored_bundles.len(), 1);
    assert!(c.anchored_bundles[0].1.bundle_id() == before_bundle);
    let after_nodes = c.node_ids();
    assert_eq!(after_nodes.len(), before_nodes.len());
    for id in &before_nodes {
        assert!(contains(&after_nodes, id));
    }
    assert!(c.id().0 != before_id.0);
}

#[test]
fn reveal_restores_concealed_seal() {
    let (_, _, mut c) = chain();
    let original = GraphSeal::from(s1()).conceal();
    c.finalize(&vec![]);
    assert_eq!(c.reveal_seals(&vec![GraphSeal::from(VoutSeal::with(CloseMethod::OpretFirst, 3, 3))]), 0);
    assert_eq!(c.reveal_seals(&vec![GraphSeal::from(s1())]), 1);
    let a = &c.anchored_bundles[0].1.items[0].transition.owned_rights[0].assignments[0];
    match a.seal {
        SealDef::Revealed(s) => assert!(s.conceal().0 == original.0),
        SealDef::Concealed(_) => panic!("seal not revealed"),
    }
    assert_eq!(c.reveal_seals(&vec![GraphSeal::from(s1())]), 0);
}

#[test]
fn consignment_id_is_deterministic() {
    let (_, _, c) = chain();
    let d = c.clone();
    assert!(c.id().0 == d.id().0);
    let mut e = c.clone();
    e.schema.data[0] = 0xAB;
    assert!(c.id().0 != e.id().0);
}

#[test]
fn lookups_over_the_graph() {
    let (g, t, c) = chain();
    assert_eq!(c.version(), 0);
    let txids = c.txids();
    assert_eq!(txids.len(), 1);
    assert!(txids[0] == digest(5));
    let bids = c.endpoint_bundle_ids();
    assert_eq!(bids.len(), 1);
    assert!(bids[0] == c.anchored_bundles[0].1.bundle_id());
    match c.endpoint_bundles() {
        Ok(bs) => assert_eq!(bs.len(), 1),
        Err(_) => panic!("endpoint bundle missing"),
    }
    let mut dup = c.clone();
    let e = dup.endpoints[0];
    dup.endpoints.push(e);
    dup.endpoints.push((digest(0x44), e.1));
    assert_eq!(dup.endpoint_bundle_ids().len(), 2);
    assert!(matches!(dup.endpoint_bundles(), Err(ConsistencyError::BundleAbsent(_))));
    assert_eq!(dup.endpoint_transitions_by_type(TRANSFER).len(), 1);
    assert!(c.bundle_by_id(bids[0]).is_ok());
    assert!(matches!(c.bundle_by_id(digest(1)), Err(ConsistencyError::BundleAbsent(_))));
    assert!(c.transition_by_id(t.node_id()).is_ok());
    assert!(matches!(c.transition_by_id(g.node_id()), Err(ConsistencyError::TransitionAbsent(_))));
    assert_eq!(c.endpoint_transitions_by_type(TRANSFER).len(), 1);
    assert_eq!(c.endpoint_transitions_by_type(TRANSFER + 1).len(), 0);
    assert_eq!(c.endpoint_transitions_by_types(&vec![2, TRANSFER]).len(), 1);
    let mesh = c.transition_witness_iter(&vec![TRANSFER]);
    assert_eq!(mesh.len(), 1);
    assert!(mesh[0].1 == digest(5));
    assert_eq!(c.transition_witness_iter(&vec![3]).len(), 0);
    assert_eq!(t.parent_outputs_by_type(RIGHT).len(), 1);
    assert_eq!(t.parent_outputs_by_type(RIGHT + 1).len(), 0);
}

#[test]
fn extensions_are_concealed_and_counted() {
    let (_, _, mut c) = chain();
    c.state_extensions.push(Extension {
        extension_type: 4,
        contract_id: digest(8),
        owned_rights: vec![OwnedRight {
            right_type: RIGHT,
            assignments: vec![Assignment {
                seal: SealDef::Revealed(GraphSeal::from(VoutSeal::with_opret(2, 5))),
                state: StateDef::Revealed(vec![7]),
            }],
        }],
        metadata: vec![],
    });
    let ext_id = c.state_extensions[0].node_id();
    assert_eq!(c.node_ids().len(), 3);
    assert_eq!(c.finalize(&vec![TerminalSeal::WitnessVout(s1())]), 1);
    assert!(c.state_extensions[0].node_id() == ext_id);
    assert!(matches!(c.state_extensions[0].owned_rights[0].assignments[0].state, StateDef::Concealed(_)));
}

#[test]
fn seal_constructors_and_concealment() {
    let v = VoutSeal::with_opret(3, 77);
    assert_eq!(v, VoutSeal { method: CloseMethod::OpretFirst, vout: 3, blinding: 77 });
    assert_eq!(VoutSeal::with_tapret(3, 77).method, CloseMethod::TapretFirst);
    let r = VoutSeal::new(CloseMethod::TapretFirst, 9);
    assert_eq!((r.method, r.vout), (CloseMethod::TapretFirst, 9));
    assert_eq!(VoutSeal::new_opret(1).method, CloseMethod::OpretFirst);
    assert_eq!(VoutSeal::new_tapret(1).method, CloseMethod::TapretFirst);
    match TerminalSeal::new_vout(CloseMethod::OpretFirst, 4) {
        TerminalSeal::WitnessVout(w) => assert_eq!(w.vout, 4),
        TerminalSeal::ConcealedUtxo(_) => panic!("expected a witness seal"),
    }

    let g = GraphSeal::from(v);
    let by_vout = TerminalSeal::WitnessVout(v).conceal();
    let by_hash = TerminalSeal::ConcealedUtxo(g.conceal()).conceal();
    assert!(by_vout.0 == by_hash.0);
    assert!(by_vout.0 != GraphSeal::from(VoutSeal::with_opret(3, 78)).conceal().0);

    match TerminalSeal::from_graph_seal(g) {
        TerminalSeal::WitnessVout(w) => assert_eq!(w, v),
        TerminalSeal::ConcealedUtxo(_) => panic!("witness seal concealed"),
    }
    let external = GraphSeal { method: CloseMethod::OpretFirst, txid: TxPtr::Txid(digest(2)), vout: 0, blinding: 1 };
    match TerminalSeal::from_graph_seal(external) {
        TerminalSeal::ConcealedUtxo(SecretSeal(h)) => assert!(h == external.conceal().0),
        TerminalSeal::WitnessVout(_) => panic!("external seal kept revealed"),
    }
}

#[test]
fn decode_round_trips_and_gates_version() {
    let (_, _, mut c) = chain();
    c.finalize(&vec![]);
    let bytes = encode_consignment(&c);
    assert_eq!(bytes[0], 0);
    match FullConsignment::strict_decode(&bytes) {
        Ok(d) => {
            assert_eq!(encode_consignment(&d), bytes);
            assert!(d.id().0 == c.id().0);
        }
        Err(e) => panic!("valid encoding rejected: {:?}", e),
    }
    let mut v1 = bytes.clone();
    v1[0] = 1;
    assert!(matches!(FullConsignment::strict_decode(&v1), Err(DecodeError::UnsupportedVersion(1))));
    assert!(matches!(FullConsignment::strict_decode(&vec![]), Err(DecodeError::UnexpectedEnd)));
    assert!(matches!(FullConsignment::strict_decode(&bytes[..bytes.len() - 1].to_vec()), Err(DecodeError::UnexpectedEnd)));
    let mut long = bytes.clone();
    long.push(0);
    assert!(matches!(FullConsignment::strict_decode(&long), Err(DecodeError::TrailingData)));
}

#[test]
fn node_passes_count_their_changes() {
    let g = genesis();
    let mut t = transition(&g);
    let id = t.node_id();
    let keep = vec![TerminalSeal::WitnessVout(s1()).conceal()];
    assert_eq!(t.conceal_state_except(&keep), 0);
    assert_eq!(t.conceal_seals(&keep), 1);
    assert_eq!(t.conceal_seals(&keep), 0);
    assert_eq!(t.conceal_state_except(&vec![]), 1);
    assert!(t.node_id() == id);
    assert_eq!(t.reveal_seals(&vec![GraphSeal::from(s1())]), 1);
    assert!(t.node_id() == id);
    assert_eq!(t.transition_type(), TRANSFER);

    let mut e = Extension {
        extension_type: 4,
        contract_id: digest(8),
        owned_rights: vec![OwnedRight {
            right_type: RIGHT,
            assignments: vec![Assignment {
                seal: SealDef::Concealed(GraphSeal::from(s1()).conceal()),
                state: StateDef::Revealed(vec![7]),
            }],
        }],
        metadata: vec![],
    };
    let eid = e.node_id();
    assert_eq!(e.reveal_seals(&vec![GraphSeal::from(s1())]), 1);
    assert_eq!(e.conceal_state_except(&keep), 0);
    assert_eq!(e.conceal_state_except(&vec![]), 1);
    assert!(e.node_id() == eid);
}

#[test]
fn endpoint_bundle_ids_ascend() {
    let (_, _, mut c) = chain();
    let seal = c.endpoints[0].1;
    c.endpoints.insert(0, (digest(0xFF), seal));
    c.endpoints.push((digest(0x01), seal));
    c.endpoints.push((digest(0xFF), seal));
    let ids = c.endpoint_bundle_ids();
    assert_eq!(ids.len(), 3);
    for w in ids.windows(2) {
        assert!(w[0].bytes < w[1].bytes);
    }
    assert!(ids[0] == digest(0x01));
    assert!(ids[2] == digest(0xFF));
}
