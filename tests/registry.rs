use skillchain::{Address, RegistryError, SkillChainNFT};

fn addr(n: u128) -> Address {
    Address::new(0, n)
}

const NOW: u64 = 1_700_000_000;

/// A registry set up by `addr(1)`, with `addr(2)` as a verified issuer.
fn setup() -> SkillChainNFT {
    let mut r = SkillChainNFT::new();
    r.initialize(addr(1)).unwrap();
    r.add_verified_issuer(addr(1), addr(2), "Academy".to_string()).unwrap();
    r
}

fn issue(r: &mut SkillChainNFT, to: Address, level: u64) -> Result<u64, RegistryError> {
    r.issue_certificate(addr(2), NOW, to, "Rust".to_string(), level, "ipfs://cert".to_string())
}

#[test]
fn initialize_only_once() {
    let mut r = SkillChainNFT::new();
    assert_eq!(r.get_owner(), Address::zero());
    assert_eq!(r.initialize(addr(1)), Ok(()));
    assert_eq!(r.get_owner(), addr(1));
    assert_eq!(r.initialize(addr(9)), Err(RegistryError::AlreadyInitialized));
    assert_eq!(r.get_owner(), addr(1));
    assert_eq!(r.total_supply(), 0);
}

#[test]
fn initialize_with_zero_address_leaves_registry_unset() {
    let mut r = SkillChainNFT::new();
    assert_eq!(r.initialize(Address::zero()), Ok(()));
    assert_eq!(r.initialize(addr(1)), Ok(()));
    assert_eq!(r.get_owner(), addr(1));
}

#[test]
fn ids_are_sequential_from_one() {
    let mut r = setup();
    assert_eq!(r.next_token_id, 1);
    assert_eq!(issue(&mut r, addr(10), 1), Ok(1));
    assert_eq!(r.next_token_id, 2);
    assert_eq!(issue(&mut r, addr(11), 2), Ok(2));
    assert_eq!(issue(&mut r, addr(10), 3), Ok(3));
    assert_eq!(r.next_token_id, 4);
}

#[test]
fn supply_equals_sum_of_balances() {
    let mut r = setup();
    issue(&mut r, addr(10), 1).unwrap();
    issue(&mut r, addr(11), 1).unwrap();
    issue(&mut r, addr(10), 4).unwrap();
    issue(&mut r, addr(12), 2).unwrap();
    let sum = r.balance_of(addr(10)) + r.balance_of(addr(11)) + r.balance_of(addr(12));
    assert_eq!(r.total_supply(), 4);
    assert_eq!(sum, 4);
    let found = (0..10u64).filter(|id| r.get_certificate(*id).is_ok()).count();
    assert_eq!(found, 4);
}

#[test]
fn certificates_by_owner_match_balance_and_owner() {
    let mut r = setup();
    issue(&mut r, addr(10), 1).unwrap();
    issue(&mut r, addr(11), 1).unwrap();
    issue(&mut r, addr(10), 2).unwrap();
    let held = r.get_certificates_by_owner(addr(10));
    assert_eq!(held, vec![1, 3]);
    assert_eq!(held.len() as u64, r.balance_of(addr(10)));
    for id in held {
        assert_eq!(r.owner_of(id), addr(10));
    }
    assert_eq!(r.get_certificates_by_owner(addr(11)), vec![2]);
    assert_eq!(r.get_certificates_by_owner(addr(12)), Vec::<u64>::new());
    assert_eq!(r.balance_of(addr(12)), 0);
}

#[test]
fn level_bounds() {
    let mut r = setup();
    assert_eq!(issue(&mut r, addr(10), 0), Err(RegistryError::InvalidLevel));
    assert_eq!(issue(&mut r, addr(10), 5), Err(RegistryError::InvalidLevel));
    assert_eq!(r.total_supply(), 0);
    for level in 1..=4u64 {
        assert_eq!(issue(&mut r, addr(10), level), Ok(level));
    }
    assert_eq!(r.total_supply(), 4);
}

#[test]
fn unverified_callers_cannot_issue() {
    let mut r = setup();
    let stranger = addr(7);
    let res = r.issue_certificate(stranger, NOW, addr(10), "Rust".to_string(), 1, "u".to_string());
    assert_eq!(res, Err(RegistryError::Unauthorized));
    let res = r.batch_issue_certificates(stranger, NOW, vec![addr(10)], "Rust".to_string(), 1, "u".to_string());
    assert_eq!(res, Err(RegistryError::Unauthorized));
    r.remove_issuer(addr(1), addr(2)).unwrap();
    assert_eq!(issue(&mut r, addr(10), 1), Err(RegistryError::Unauthorized));
    let res = r.batch_issue_certificates(addr(2), NOW, vec![addr(10)], "Rust".to_string(), 1, "u".to_string());
    assert_eq!(res, Err(RegistryError::Unauthorized));
    assert_eq!(r.total_supply(), 0);
    assert_eq!(r.balance_of(addr(10)), 0);
    assert_eq!(r.next_token_id, 1);
    assert_eq!(r.get_issuer_info(addr(2)).2, 0);
}

#[test]
fn batch_issues_in_recipient_order() {
    let mut r = setup();
    issue(&mut r, addr(9), 1).unwrap();
    let recipients = vec![addr(20), addr(21), addr(22)];
    let ids = r
        .batch_issue_certificates(addr(2), NOW, recipients.clone(), "Rust".to_string(), 3, "uri".to_string())
        .unwrap();
    assert_eq!(ids, vec![2, 3, 4]);
    for (id, to) in ids.iter().zip(recipients.iter()) {
        assert_eq!(r.owner_of(*id), *to);
        let cert = r.get_certificate(*id).unwrap();
        assert_eq!(cert, ("Rust".to_string(), 3, addr(2), *to, NOW, "uri".to_string()));
    }
    assert_eq!(r.total_supply(), 4);
    assert_eq!(r.get_issuer_info(addr(2)).2, 4);
}

#[test]
fn failed_batch_changes_nothing() {
    let mut r = setup();
    issue(&mut r, addr(9), 1).unwrap();
    let res = r.batch_issue_certificates(
        addr(2),
        NOW,
        vec![addr(20), addr(21), addr(22)],
        "Rust".to_string(),
        5,
        "uri".to_string(),
    );
    assert_eq!(res, Err(RegistryError::InvalidLevel));
    assert_eq!(r.total_supply(), 1);
    assert_eq!(r.next_token_id, 2);
    assert_eq!(r.owner_of(2), Address::zero());
    assert_eq!(r.balance_of(addr(20)), 0);
    assert_eq!(r.get_issuer_info(addr(2)).2, 1);
}

#[test]
fn empty_batch_succeeds_with_no_ids() {
    let mut r = setup();
    let res = r.batch_issue_certificates(addr(2), NOW, Vec::new(), "Rust".to_string(), 9, "uri".to_string());
    assert_eq!(res, Ok(Vec::new()));
    assert_eq!(r.total_supply(), 0);
}

#[test]
fn re_adding_an_issuer_resets_it() {
    let mut r = setup();
    issue(&mut r, addr(10), 1).unwrap();
    issue(&mut r, addr(11), 1).unwrap();
    r.update_issuer_reputation(addr(1), addr(2), 80).unwrap();
    assert_eq!(r.get_issuer_info(addr(2)), ("Academy".to_string(), true, 2, 80));
    r.add_verified_issuer(addr(1), addr(2), "Academy II".to_string()).unwrap();
    assert_eq!(r.get_issuer_info(addr(2)), ("Academy II".to_string(), true, 0, 50));
}

#[test]
fn reputation_bounds() {
    let mut r = setup();
    assert_eq!(r.update_issuer_reputation(addr(1), addr(2), 101), Err(RegistryError::InvalidScore));
    assert_eq!(r.get_issuer_info(addr(2)).3, 50);
    assert_eq!(r.update_issuer_reputation(addr(1), addr(2), 100), Ok(()));
    assert_eq!(r.get_issuer_info(addr(2)).3, 100);
    assert_eq!(r.update_issuer_reputation(addr(1), addr(2), 0), Ok(()));
    assert_eq!(r.get_issuer_info(addr(2)).3, 0);
}

#[test]
fn unknown_certificate() {
    let mut r = setup();
    issue(&mut r, addr(10), 1).unwrap();
    assert_eq!(r.get_certificate(2), Err(RegistryError::CertificateNotFound));
    assert_eq!(r.owner_of(2), Address::zero());
    assert_eq!(r.get_certificate(0), Err(RegistryError::CertificateNotFound));
    assert_eq!(r.owner_of(0), Address::zero());
    assert!(r.get_certificate(1).is_ok());
}

#[test]
fn certificate_to_zero_address_reads_as_absent() {
    let mut r = setup();
    assert_eq!(issue(&mut r, Address::zero(), 1), Ok(1));
    assert_eq!(r.get_certificate(1), Err(RegistryError::CertificateNotFound));
    assert_eq!(r.owner_of(1), Address::zero());
    assert_eq!(r.total_supply(), 1);
}

#[test]
fn admin_operations_need_the_administrator() {
    let mut r = setup();
    let other = addr(5);
    assert_eq!(r.add_verified_issuer(other, addr(3), "X".to_string()), Err(RegistryError::Unauthorized));
    assert_eq!(r.remove_issuer(other, addr(2)), Err(RegistryError::Unauthorized));
    assert_eq!(r.update_issuer_reputation(other, addr(2), 101), Err(RegistryError::Unauthorized));
    assert_eq!(r.get_issuer_info(addr(3)), (String::new(), false, 0, 0));
    assert!(r.get_issuer_info(addr(2)).1);
}

#[test]
fn nobody_administers_an_unset_registry() {
    let mut r = SkillChainNFT::new();
    assert_eq!(r.add_verified_issuer(Address::zero(), addr(2), "X".to_string()), Err(RegistryError::Unauthorized));
    assert_eq!(r.add_verified_issuer(addr(1), addr(2), "X".to_string()), Err(RegistryError::Unauthorized));
}

#[test]
fn removing_keeps_history() {
    let mut r = setup();
    issue(&mut r, addr(10), 2).unwrap();
    r.remove_issuer(addr(1), addr(2)).unwrap();
    assert_eq!(r.get_issuer_info(addr(2)), ("Academy".to_string(), false, 1, 50));
    r.remove_issuer(addr(1), addr(4)).unwrap();
    assert_eq!(r.get_issuer_info(addr(4)), (String::new(), false, 0, 0));
    r.update_issuer_reputation(addr(1), addr(6), 70).unwrap();
    assert_eq!(r.get_issuer_info(addr(6)), (String::new(), false, 0, 70));
}

#[test]
fn certificate_fields_are_kept() {
    let mut r = setup();
    let id = r
        .issue_certificate(addr(2), 42, addr(10), "Go".to_string(), 4, "ipfs://go".to_string())
        .unwrap();
    let cert = r.get_certificate(id).unwrap();
    assert_eq!(cert, ("Go".to_string(), 4, addr(2), addr(10), 42, "ipfs://go".to_string()));
    assert_eq!(r.get_issuer_info(addr(2)).2, 1);
}

#[test]
fn self_issuance_is_allowed() {
    let mut r = setup();
    assert_eq!(issue(&mut r, addr(2), 1), Ok(1));
    assert_eq!(r.owner_of(1), addr(2));
}

#[test]
fn addresses_differ_in_high_bits() {
    let a = Address::new(1, 5);
    let b = Address::new(0, 5);
    assert_ne!(a, b);
    assert!(!a.is_zero());
    assert!(Address::new(0, 0).is_zero());
}
