//! Patient-controlled access to medical records, with an audit trail.
//!
//! A patient keeps a set of providers that may read their records; every
//! authorized read replaces the patient's latest access record and bumps a
//! running counter.
pub mod identity;
pub mod registry;
pub mod audit;
pub mod contract;
pub mod laws;

pub use identity::Identity;
pub use audit::{AccessLog, AuthorizationError};
pub use contract::MedicalRecordsContract;
