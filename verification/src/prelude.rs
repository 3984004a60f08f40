//! Convenience re-exports.

pub use crate::address::Address;
pub use crate::encoding::{calculate_vcr_size, encode_vcr, estimate_vcr_gas, GasEstimate};
pub use crate::keys::{SigningKey, VerifyingKey};
pub use crate::merkle::{MerkleError, NonMembershipProof, SortedMerkleTree};
pub use crate::registry::MockRegistry;
pub use crate::vcr::{ComplianceMessage, Context, Policy, Transaction, VcrError, VcrSignature, VCR};
