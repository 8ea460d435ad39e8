//! Threshold blind signatures over BLS12-381 and the session outcomes of a
//! federated consensus, with their arithmetic and layouts verified.
pub mod group;
pub mod hash;
pub mod key_order;
pub mod lagrange;
pub mod poly;
pub mod scalar;
pub mod session_outcome;
pub mod tbs;

pub use crate::session_outcome::{
    AcceptedItem, ConsensusItem, PeerId, SchnorrSignature, SessionOutcome, SessionStatus,
    SessionStatusV2, SignedSessionOutcome,
};
pub use crate::tbs::{
    aggregate_public_key_shares, aggregate_signature_shares, blind_message, derive_pk_share,
    sign_message, unblind_signature, verify, verify_blinded_signature, verify_signature_share,
    AggregatePublicKey, BlindedMessage, BlindedSignature, BlindedSignatureShare, BlindingKey,
    Message, PublicKeyShare, SecretKeyShare, Signature,
};
