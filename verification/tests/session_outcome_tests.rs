use std::collections::BTreeMap;

use bitcoin::hashes::sha256;
use bitcoin::hashes::Hash as _;
use tbs::{
    AcceptedItem, ConsensusItem, PeerId, SchnorrSignature, SessionOutcome, SessionStatus,
    SessionStatusV2, SignedSessionOutcome,
};

fn item(bytes: &[u8], peer: u16) -> AcceptedItem {
    AcceptedItem { item: ConsensusItem(bytes.to_vec()), peer: PeerId(peer) }
}

#[test]
fn header_of_empty_session_is_index_and_zeros() {
    let outcome = SessionOutcome { items: vec![] };
    let header = outcome.header(0x0102030405060708);
    assert_eq!(&header[..8], &[1, 2, 3, 4, 5, 6, 7, 8]);
    assert_eq!(&header[8..], &[0u8; 32]);
}

#[test]
fn header_of_single_item_is_its_consensus_hash() {
    let it = item(&[9, 9, 9], 3);
    let outcome = SessionOutcome { items: vec![it.clone()] };
    let header = outcome.header(5);
    assert_eq!(&header[..8], &5u64.to_be_bytes());
    let leaf = sha256::Hash::hash(&[9, 9, 9, 3]).to_byte_array();
    assert_eq!(&header[8..], &leaf);
    assert_eq!(it.consensus_hash(), leaf);
}

#[test]
fn header_of_two_items_is_their_merkle_root() {
    let a = item(&[1], 0);
    let b = item(&[2], 1);
    let outcome = SessionOutcome { items: vec![a.clone(), b.clone()] };
    let mut node = a.consensus_hash().to_vec();
    node.extend_from_slice(&b.consensus_hash());
    let root = sha256::Hash::hash(&node).to_byte_array();
    assert_eq!(&outcome.header(1)[8..], &root);
}

#[test]
fn peer_ids_are_encoded_as_bigsize() {
    assert_eq!(PeerId(5).consensus_encode(), vec![5]);
    assert_eq!(PeerId(0xfc).consensus_encode(), vec![0xfc]);
    assert_eq!(PeerId(0xfd).consensus_encode(), vec![0xfd, 0x00, 0xfd]);
    assert_eq!(PeerId(300).consensus_encode(), vec![0xfd, 0x01, 0x2c]);
    assert_eq!(item(&[7, 8], 300).consensus_encode(), vec![7, 8, 0xfd, 0x01, 0x2c]);
}

#[test]
fn session_status_from_v2_drops_signatures() {
    let outcome = SessionOutcome { items: vec![item(&[1, 2], 0)] };
    let mut signatures = BTreeMap::new();
    signatures.insert(PeerId(0), SchnorrSignature([3; 64]));
    let signed = SignedSessionOutcome { session_outcome: outcome.clone(), signatures };
    assert_eq!(SessionStatus::from(SessionStatusV2::Complete(signed)), SessionStatus::Complete(outcome));
    assert_eq!(SessionStatus::from(SessionStatusV2::Initial), SessionStatus::Initial);
    let items = vec![item(&[4], 2)];
    assert_eq!(
        SessionStatus::from(SessionStatusV2::Pending(items.clone())),
        SessionStatus::Pending(items)
    );
}


#[test]
fn header_of_three_items_repeats_the_last_leaf() {
    let items = vec![item(&[1], 0), item(&[2], 1), item(&[3], 2)];
    let leaves: Vec<[u8; 32]> = items.iter().map(|it| it.consensus_hash()).collect();
    let node = |a: &[u8; 32], b: &[u8; 32]| {
        let mut bytes = a.to_vec();
        bytes.extend_from_slice(b);
        sha256::Hash::hash(&bytes).to_byte_array()
    };
    let root = node(&node(&leaves[0], &leaves[1]), &node(&leaves[2], &leaves[2]));
    assert_eq!(&SessionOutcome { items }.header(2)[8..], &root);
}
