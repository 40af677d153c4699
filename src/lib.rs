//! A registry of non-transferable skill certificates, handed out by issuers
//! whom a single administrator approves.
pub mod types;
pub mod table;
pub mod registry;
pub mod laws;

pub use types::{Address, Certificate, Issuer, RegistryError};
pub use registry::SkillChainNFT;
