use vstd::prelude::*;

verus! {

/// A 160-bit account address, held as its high 32 bits and its low 128 bits.
#[derive(Clone, Copy, Debug, PartialEq, Eq, Structural, Hash)]
pub struct Address {
    pub hi: u32,
    pub lo: u128,
}

impl Address {
    pub fn new(hi: u32, lo: u128) -> (r: Address)
        ensures
            r.hi == hi,
            r.lo == lo,
    {
        Address { hi, lo }
    }

    /// The all-zero address, which stands for "nobody".
    pub fn zero() -> (r: Address)
        ensures
            r == Address::spec_zero(),
    {
        Address { hi: 0, lo: 0 }
    }

    pub open spec fn spec_zero() -> Address {
        Address { hi: 0, lo: 0 }
    }

    pub fn is_zero(&self) -> (r: bool)
        ensures
            r == (*self == Address::spec_zero()),
    {
        self.hi == 0 && self.lo == 0
    }
}

/// The failures that an operation of the registry can report.
#[derive(Clone, Copy, Debug, PartialEq, Eq, Structural)]
pub enum RegistryError {
    AlreadyInitialized,
    Unauthorized,
    InvalidLevel,
    InvalidScore,
    CertificateNotFound,
    /// A counter would pass the largest value it can hold.
    Overflow,
}

/// A certificate as the ledger keeps it; it never changes once written.
#[derive(Clone, Debug)]
pub struct Certificate {
    pub token_id: u64,
    pub skill_name: String,
    pub level: u64,
    pub issuer: Address,
    pub recipient: Address,
    pub issue_date: u64,
    pub metadata_uri: String,
}

/// What the registry knows of one issuer.
#[derive(Clone, Debug)]
pub struct Issuer {
    pub name: String,
    pub is_verified: bool,
    pub certificates_issued: u64,
    pub reputation_score: u64,
}

/// Reputation that an issuer starts with when the administrator adds it.
pub const INITIAL_REPUTATION: u64 = 50;

/// Highest reputation score the administrator may set.
pub const MAX_REPUTATION: u64 = 100;

/// Lowest and highest proficiency level of a certificate.
pub const MIN_LEVEL: u64 = 1;

pub const MAX_LEVEL: u64 = 4;

} // verus!
