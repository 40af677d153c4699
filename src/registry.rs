//! The registry: administrator, issuers, the certificate ledger and the
//! per-owner index, with every operation that reads or changes them.
use vstd::prelude::*;
use crate::table::{Entry, lookup, find, lemma_lookup_push, lemma_lookup_update};
use crate::types::{
    Address, Certificate, Issuer, RegistryError, INITIAL_REPUTATION, MAX_LEVEL, MAX_REPUTATION,
    MIN_LEVEL,
};

verus! {

/// The identifiers held by `a` in ledger `s`, in the order they were issued.
pub open spec fn owned_ids(s: Seq<Certificate>, a: Address) -> Seq<u64>
    decreases s.len(),
{
    if s.len() == 0 {
        Seq::empty()
    } else {
        let p = owned_ids(s.drop_last(), a);
        if s.last().recipient == a {
            p.push(s.last().token_id)
        } else {
            p
        }
    }
}

pub proof fn lemma_owned_ids_push(s: Seq<Certificate>, c: Certificate, a: Address)
    ensures
        owned_ids(s.push(c), a) == if c.recipient == a {
            owned_ids(s, a).push(c.token_id)
        } else {
            owned_ids(s, a)
        },
{
    assert(s.push(c).drop_last() =~= s);
}

pub proof fn lemma_owned_ids_append(s: Seq<Certificate>, t: Seq<Certificate>, a: Address)
    ensures
        owned_ids(s + t, a) == owned_ids(s, a) + owned_ids(t, a),
    decreases t.len(),
{
    if t.len() == 0 {
        assert(s + t =~= s);
        assert(owned_ids(s, a) + owned_ids(t, a) =~= owned_ids(s, a));
    } else {
        lemma_owned_ids_append(s, t.drop_last(), a);
        assert((s + t).drop_last() =~= s + t.drop_last());
        assert((s + t).last() == t.last());
        if t.last().recipient == a {
            assert(owned_ids(s, a) + owned_ids(t.drop_last(), a).push(t.last().token_id) =~= (owned_ids(s, a)
                + owned_ids(t.drop_last(), a)).push(t.last().token_id));
        }
    }
}

pub proof fn lemma_owned_ids_len(s: Seq<Certificate>, a: Address)
    ensures
        owned_ids(s, a).len() <= s.len(),
    decreases s.len(),
{
    if s.len() > 0 {
        lemma_owned_ids_len(s.drop_last(), a);
    }
}

/// Every identifier that `owned_ids` lists for `a` names a certificate of
/// `s` whose recipient is `a`, where identifiers count from one.
pub proof fn lemma_owned_ids_sound(s: Seq<Certificate>, a: Address, k: int)
    requires
        forall|i: int| 0 <= i < s.len() ==> s[i].token_id == i + 1,
        0 <= k < owned_ids(s, a).len(),
    ensures
        1 <= owned_ids(s, a)[k] <= s.len(),
        s[owned_ids(s, a)[k] - 1].recipient == a,
    decreases s.len(),
{
    let p = owned_ids(s.drop_last(), a);
    if s.last().recipient == a && k == p.len() {
    } else {
        lemma_owned_ids_sound(s.drop_last(), a, k);
    }
}

/// A fresh certificate, as issuance writes it into the ledger.
pub open spec fn new_certificate(
    id: u64,
    skill_name: String,
    level: u64,
    issuer: Address,
    recipient: Address,
    now: u64,
    metadata_uri: String,
) -> Certificate {
    Certificate {
        token_id: id,
        skill_name,
        level,
        issuer,
        recipient,
        issue_date: now,
        metadata_uri,
    }
}

/// The certificates that a batch writes, one per recipient, with
/// identifiers counting up from `first`.
pub open spec fn batch_certificates(
    first: u64,
    recipients: Seq<Address>,
    skill_name: String,
    level: u64,
    issuer: Address,
    now: u64,
    metadata_uri: String,
) -> Seq<Certificate> {
    Seq::new(
        recipients.len(),
        |j: int| new_certificate((first + j) as u64, skill_name, level, issuer, recipients[j], now, metadata_uri),
    )
}

pub open spec fn valid_level(level: u64) -> bool {
    MIN_LEVEL <= level <= MAX_LEVEL
}

/// The registry's whole state.
pub struct SkillChainNFT {
    /// The administrator; the zero address while the registry is not set up.
    pub owner: Address,
    pub total_supply: u64,
    pub next_token_id: u64,
    /// The ledger: the certificate with identifier `i` stands at position `i - 1`.
    pub certificates: Vec<Certificate>,
    pub issuers: Vec<Entry<Issuer>>,
    /// For each owner, the identifiers it holds, in order of issuance.
    pub owner_tokens: Vec<Entry<Vec<u64>>>,
}

impl SkillChainNFT {
    pub open spec fn is_initialized(&self) -> bool {
        self.owner != Address::spec_zero()
    }

    pub open spec fn is_admin(&self, caller: Address) -> bool {
        self.is_initialized() && caller == self.owner
    }

    /// Name, verified flag, issued count and reputation of `a`; an address
    /// without a record reads as an empty name, unverified, 0 and 0.
    pub open spec fn issuer_info(&self, a: Address) -> (Seq<char>, bool, nat, nat) {
        match lookup(self.issuers@, a) {
            Some(i) => (i.name@, i.is_verified, i.certificates_issued as nat, i.reputation_score as nat),
            None => (Seq::empty(), false, 0, 0),
        }
    }

    pub open spec fn is_verified_issuer(&self, a: Address) -> bool {
        self.issuer_info(a).1
    }

    /// The identifiers that the index lists for `a`.
    pub open spec fn tokens_of(&self, a: Address) -> Seq<u64> {
        match lookup(self.owner_tokens@, a) {
            Some(v) => v@,
            None => Seq::empty(),
        }
    }

    /// The certificate with identifier `id`, if one was issued.
    pub open spec fn cert(&self, id: int) -> Option<Certificate> {
        if 1 <= id <= self.certificates@.len() {
            Some(self.certificates@[id - 1])
        } else {
            None
        }
    }

    /// The recipient of certificate `id`, or the zero address.
    pub open spec fn owner_of_spec(&self, id: int) -> Address {
        match self.cert(id) {
            Some(c) => c.recipient,
            None => Address::spec_zero(),
        }
    }

    pub open spec fn wf(&self) -> bool {
        &&& self.certificates@.len() == self.total_supply
        &&& forall|i: int| 0 <= i < self.certificates@.len() ==> #[trigger] self.certificates@[i].token_id == i + 1
        &&& self.is_initialized() ==> self.next_token_id == self.total_supply + 1
        &&& !self.is_initialized() ==> self.total_supply == 0 && self.issuers@.len() == 0
        &&& forall|a: Address| #[trigger] self.issuer_info(a).2 <= self.total_supply
        &&& forall|a: Address| #[trigger] self.tokens_of(a) == owned_ids(self.certificates@, a)
    }

    /// Everything but the issuer records is as in `other`.
    pub open spec fn same_but_issuers(&self, other: &SkillChainNFT) -> bool {
        &&& self.owner == other.owner
        &&& self.total_supply == other.total_supply
        &&& self.next_token_id == other.next_token_id
        &&& self.certificates@ == other.certificates@
        &&& self.owner_tokens@ == other.owner_tokens@
    }

    /// A registry that nobody has set up yet.
    pub fn new() -> (r: SkillChainNFT)
        ensures
            r.wf(),
            !r.is_initialized(),
            r.total_supply == 0,
            r.next_token_id == 0,
            r.certificates@.len() == 0,
            forall|a: Address| r.issuer_info(a) == (Seq::<char>::empty(), false, 0nat, 0nat),
            forall|a: Address| r.tokens_of(a) == Seq::<u64>::empty(),
    {
        let r = SkillChainNFT {
            owner: Address::zero(),
            total_supply: 0,
            next_token_id: 0,
            certificates: Vec::new(),
            issuers: Vec::new(),
            owner_tokens: Vec::new(),
        };
        assert forall|a: Address| #[trigger] r.tokens_of(a) == owned_ids(r.certificates@, a) by {
            assert(owned_ids(r.certificates@, a) =~= Seq::<u64>::empty());
        }
        r
    }

    /// Sets the administrator and the counters; allowed once.
    pub fn initialize(&mut self, admin: Address) -> (r: Result<(), RegistryError>)
        requires
            old(self).wf(),
        ensures
            final(self).wf(),
            old(self).is_initialized() ==> r == Err::<(), RegistryError>(RegistryError::AlreadyInitialized)
                && *final(self) == *old(self),
            !old(self).is_initialized() ==> r is Ok && final(self).owner == admin
                && final(self).next_token_id == 1 && final(self).total_supply == 0
                && final(self).certificates@ == old(self).certificates@
                && final(self).issuers@ == old(self).issuers@
                && final(self).owner_tokens@ == old(self).owner_tokens@,
    {
        if !self.owner.is_zero() {
            return Err(RegistryError::AlreadyInitialized);
        }
        self.owner = admin;
        self.next_token_id = 1;
        self.total_supply = 0;
        assert forall|a: Address| #[trigger] self.issuer_info(a).2 <= self.total_supply by {
            assert(lookup(self.issuers@, a) is None);
        }
        assert forall|a: Address| #[trigger] self.tokens_of(a) == owned_ids(self.certificates@, a) by {
            assert(old(self).tokens_of(a) == owned_ids(old(self).certificates@, a));
        }
        Ok(())
    }

    /// Passes only for the administrator of a registry that was set up.
    fn only_owner(&self, caller: Address) -> (r: Result<(), RegistryError>)
        ensures
            r is Ok <==> self.is_admin(caller),
            r is Err ==> r == Err::<(), RegistryError>(RegistryError::Unauthorized),
    {
        if self.owner.is_zero() || caller != self.owner {
            return Err(RegistryError::Unauthorized);
        }
        Ok(())
    }

    /// Passes only for an issuer whose record says it is verified.
    fn only_verified_issuer(&self, caller: Address) -> (r: Result<(), RegistryError>)
        ensures
            r is Ok <==> self.is_verified_issuer(caller),
            r is Err ==> r == Err::<(), RegistryError>(RegistryError::Unauthorized),
    {
        match find(&self.issuers, caller) {
            Some(i) => {
                if self.issuers[i].value.is_verified {
                    Ok(())
                } else {
                    Err(RegistryError::Unauthorized)
                }
            },
            None => Err(RegistryError::Unauthorized),
        }
    }

    /// What one successful issuance of `id` by `caller` to `recipient` does:
    /// `self` is the registry before, `after` the registry after.
    pub open spec fn issued_one(
        &self,
        after: &SkillChainNFT,
        caller: Address,
        now: u64,
        recipient: Address,
        skill_name: String,
        level: u64,
        metadata_uri: String,
        id: u64,
    ) -> bool {
        &&& id == self.next_token_id
        &&& after.next_token_id == self.next_token_id + 1
        &&& after.total_supply == self.total_supply + 1
        &&& after.owner == self.owner
        &&& after.certificates@ == self.certificates@.push(
            new_certificate(id, skill_name, level, caller, recipient, now, metadata_uri),
        )
        &&& after.issuer_info(caller) == (
            self.issuer_info(caller).0,
            self.issuer_info(caller).1,
            (self.issuer_info(caller).2 + 1) as nat,
            self.issuer_info(caller).3,
        )
        &&& forall|b: Address| b != caller ==> #[trigger] after.issuer_info(b) == self.issuer_info(b)
        &&& after.tokens_of(recipient) == self.tokens_of(recipient).push(id)
        &&& forall|b: Address| b != recipient ==> #[trigger] after.tokens_of(b) == self.tokens_of(b)
    }

    /// Issues one certificate from `caller` to `recipient` at time `now` and
    /// returns its identifier.
    pub fn issue_certificate(
        &mut self,
        caller: Address,
        now: u64,
        recipient: Address,
        skill_name: String,
        level: u64,
        metadata_uri: String,
    ) -> (r: Result<u64, RegistryError>)
        requires
            old(self).wf(),
        ensures
            final(self).wf(),
            r is Ok <==> old(self).is_verified_issuer(caller) && valid_level(level)
                && old(self).next_token_id < u64::MAX,
            !old(self).is_verified_issuer(caller) ==> r == Err::<u64, RegistryError>(RegistryError::Unauthorized),
            old(self).is_verified_issuer(caller) && !valid_level(level) ==> r == Err::<u64, RegistryError>(
                RegistryError::InvalidLevel,
            ),
            old(self).is_verified_issuer(caller) && valid_level(level) && old(self).next_token_id == u64::MAX
                ==> r == Err::<u64, RegistryError>(RegistryError::Overflow),
            match r {
                Ok(id) => old(self).issued_one(
                    final(self),
                    caller,
                    now,
                    recipient,
                    skill_name,
                    level,
                    metadata_uri,
                    id,
                ),
                Err(_) => *final(self) == *old(self),
            },
    {
        if let Err(e) = self.only_verified_issuer(caller) {
            return Err(e);
        }
        if level < MIN_LEVEL || level > MAX_LEVEL {
            return Err(RegistryError::InvalidLevel);
        }
        if self.next_token_id == u64::MAX {
            return Err(RegistryError::Overflow);
        }
        let ghost pre = *self;
        let id = self.next_token_id;
        proof {
            lemma_owned_ids_len(self.certificates@, recipient);
        }
        let ghost cert = new_certificate(id, skill_name, level, caller, recipient, now, metadata_uri);
        let c = Certificate {
            token_id: id,
            skill_name,
            level,
            issuer: caller,
            recipient,
            issue_date: now,
            metadata_uri,
        };
        self.certificates.push(c);

        // the index of the recipient's holdings
        match find(&self.owner_tokens, recipient) {
            Some(i) => {
                self.owner_tokens[i].value.push(id);
                proof {
                    let e2 = self.owner_tokens@[i as int];
                    assert(self.owner_tokens@ == pre.owner_tokens@.update(i as int, e2));
                    assert forall|b: Address| #[trigger] self.tokens_of(b) == if b == recipient {
                        pre.tokens_of(b).push(id)
                    } else {
                        pre.tokens_of(b)
                    } by {
                        lemma_lookup_update(pre.owner_tokens@, i as int, e2, b);
                    }
                }
            },
            None => {
                let mut held: Vec<u64> = Vec::new();
                held.push(id);
                let e = Entry { key: recipient, value: held };
                self.owner_tokens.push(e);
                proof {
                    assert forall|b: Address| #[trigger] self.tokens_of(b) == if b == recipient {
                        pre.tokens_of(b).push(id)
                    } else {
                        pre.tokens_of(b)
                    } by {
                        lemma_lookup_push(pre.owner_tokens@, e, b);
                        assert(held@ =~= Seq::<u64>::empty().push(id));
                    }
                }
            },
        }

        assert(self.certificates@ == pre.certificates@.push(cert));
        let ghost mid = *self;

        // the issuer's count
        match find(&self.issuers, caller) {
            Some(i) => {
                let issued = self.issuers[i].value.certificates_issued;
                assert(issued <= pre.total_supply) by {
                    assert(pre.issuer_info(caller).2 <= pre.total_supply);
                }
                self.issuers[i].value.certificates_issued = issued + 1;
                proof {
                    let e2 = self.issuers@[i as int];
                    assert(self.issuers@ == pre.issuers@.update(i as int, e2));
                    assert forall|b: Address| #[trigger] self.issuer_info(b) == if b == caller {
                        (pre.issuer_info(b).0, pre.issuer_info(b).1, pre.issuer_info(b).2 + 1, pre.issuer_info(b).3)
                    } else {
                        pre.issuer_info(b)
                    } by {
                        lemma_lookup_update(pre.issuers@, i as int, e2, b);
                    }
                    lemma_lookup_update(pre.issuers@, i as int, e2, caller);
                }
            },
            None => {
                proof {
                    assert(lookup(pre.issuers@, caller) is None);
                }
            },
        }
        let ghost mid2 = *self;

        self.next_token_id = id + 1;
        self.total_supply = self.total_supply + 1;
        proof {
            assert forall|a: Address| #[trigger] self.tokens_of(a) == owned_ids(self.certificates@, a) by {
                assert(self.tokens_of(a) == mid.tokens_of(a));
                lemma_owned_ids_push(pre.certificates@, cert, a);
                assert(pre.tokens_of(a) == owned_ids(pre.certificates@, a));
            }
            assert forall|a: Address| #[trigger] self.issuer_info(a).2 <= self.total_supply by {
                assert(self.issuer_info(a) == mid2.issuer_info(a));
                assert(pre.issuer_info(a).2 <= pre.total_supply);
            }
            assert forall|b: Address| b != caller implies #[trigger] self.issuer_info(b) == pre.issuer_info(b) by {
                assert(self.issuer_info(b) == mid2.issuer_info(b));
            }
            assert forall|b: Address| b != recipient implies #[trigger] self.tokens_of(b) == pre.tokens_of(b) by {
                assert(self.tokens_of(b) == mid.tokens_of(b));
            }
            assert(self.issuer_info(caller) == mid2.issuer_info(caller));
            assert(self.tokens_of(recipient) == mid.tokens_of(recipient));
        }
        Ok(id)
    }

    /// What a successful batch from `caller` does: `self` is the registry
    /// before, `after` the registry after, `ids` what the batch returned.
    pub open spec fn issued_batch(
        &self,
        after: &SkillChainNFT,
        caller: Address,
        now: u64,
        recipients: Seq<Address>,
        skill_name: String,
        level: u64,
        metadata_uri: String,
        ids: Seq<u64>,
    ) -> bool {
        &&& ids.len() == recipients.len()
        &&& forall|k: int| 0 <= k < ids.len() ==> #[trigger] ids[k] == self.next_token_id + k
        &&& after.next_token_id == self.next_token_id + recipients.len()
        &&& after.total_supply == self.total_supply + recipients.len()
        &&& after.owner == self.owner
        &&& after.certificates@ == self.certificates@ + batch_certificates(
            self.next_token_id,
            recipients,
            skill_name,
            level,
            caller,
            now,
            metadata_uri,
        )
        &&& after.issuer_info(caller) == (
            self.issuer_info(caller).0,
            self.issuer_info(caller).1,
            (self.issuer_info(caller).2 + recipients.len()) as nat,
            self.issuer_info(caller).3,
        )
        &&& forall|b: Address| b != caller ==> #[trigger] after.issuer_info(b) == self.issuer_info(b)
        &&& forall|b: Address| #[trigger] after.tokens_of(b) == self.tokens_of(b) + owned_ids(
            batch_certificates(self.next_token_id, recipients, skill_name, level, caller, now, metadata_uri),
            b,
        )
    }

    /// Issues one certificate to each recipient, in order, with the same
    /// skill, level and metadata; either all of them are issued or none.
    pub fn batch_issue_certificates(
        &mut self,
        caller: Address,
        now: u64,
        recipients: Vec<Address>,
        skill_name: String,
        level: u64,
        metadata_uri: String,
    ) -> (r: Result<Vec<u64>, RegistryError>)
        requires
            old(self).wf(),
        ensures
            final(self).wf(),
            r is Ok <==> old(self).is_verified_issuer(caller) && (recipients@.len() == 0 || (
                valid_level(level) && old(self).next_token_id + recipients@.len() <= u64::MAX)),
            !old(self).is_verified_issuer(caller) ==> r == Err::<Vec<u64>, RegistryError>(
                RegistryError::Unauthorized,
            ),
            old(self).is_verified_issuer(caller) && recipients@.len() > 0 && !valid_level(level) ==> r
                == Err::<Vec<u64>, RegistryError>(RegistryError::InvalidLevel),
            old(self).is_verified_issuer(caller) && recipients@.len() > 0 && valid_level(level)
                && old(self).next_token_id + recipients@.len() > u64::MAX ==> r == Err::<
                Vec<u64>,
                RegistryError,
            >(RegistryError::Overflow),
            match r {
                Ok(ids) => old(self).issued_batch(
                    final(self),
                    caller,
                    now,
                    recipients@,
                    skill_name,
                    level,
                    metadata_uri,
                    ids@,
                ),
                Err(_) => *final(self) == *old(self),
            },
    {
        if let Err(e) = self.only_verified_issuer(caller) {
            return Err(e);
        }
        let n = recipients.len();
        if n > 0 && (level < MIN_LEVEL || level > MAX_LEVEL) {
            return Err(RegistryError::InvalidLevel);
        }
        if n > 0 && n as u128 > (u64::MAX - self.next_token_id) as u128 {
            return Err(RegistryError::Overflow);
        }
        let ghost pre = *self;
        let mut ids: Vec<u64> = Vec::new();
        let mut k: usize = 0;
        assert(self.certificates@ =~= pre.certificates@ + batch_certificates(
            pre.next_token_id, recipients@.take(0), skill_name, level, caller, now, metadata_uri));
        while k < n
            invariant
                self.wf(),
                k <= n,
                n == recipients@.len(),
                pre.is_verified_issuer(caller),
                n > 0 ==> valid_level(level),
                pre.next_token_id + n <= u64::MAX,
                self.owner == pre.owner,
                self.next_token_id == pre.next_token_id + k,
                self.total_supply == pre.total_supply + k,
                ids@.len() == k,
                forall|j: int| 0 <= j < k ==> #[trigger] ids@[j] == pre.next_token_id + j,
                self.certificates@ == pre.certificates@ + batch_certificates(
                    pre.next_token_id,
                    recipients@.take(k as int),
                    skill_name,
                    level,
                    caller,
                    now,
                    metadata_uri,
                ),
                self.issuer_info(caller) == (
                    pre.issuer_info(caller).0,
                    pre.issuer_info(caller).1,
                    (pre.issuer_info(caller).2 + k) as nat,
                    pre.issuer_info(caller).3,
                ),
                forall|b: Address| b != caller ==> #[trigger] self.issuer_info(b) == pre.issuer_info(b),
            decreases n - k,
        {
            let ghost before = *self;
            let issued = self.issue_certificate(
                caller,
                now,
                recipients[k],
                skill_name.clone(),
                level,
                metadata_uri.clone(),
            );
            let id = issued.unwrap();
            ids.push(id);
            proof {
                assert(self.certificates@ =~= pre.certificates@ + batch_certificates(
                    pre.next_token_id,
                    recipients@.take(k + 1),
                    skill_name,
                    level,
                    caller,
                    now,
                    metadata_uri,
                ));
                assert forall|b: Address| b != caller implies #[trigger] self.issuer_info(b) == pre.issuer_info(b) by {
                    assert(self.issuer_info(b) == before.issuer_info(b));
                }
            }
            k = k + 1;
        }
        proof {
            assert(recipients@.take(n as int) =~= recipients@);
            let added = batch_certificates(pre.next_token_id, recipients@, skill_name, level, caller, now, metadata_uri);
            assert forall|b: Address| #[trigger] self.tokens_of(b) == pre.tokens_of(b) + owned_ids(added, b) by {
                lemma_owned_ids_append(pre.certificates@, added, b);
                assert(pre.tokens_of(b) == owned_ids(pre.certificates@, b));
            }
        }
        Ok(ids)
    }

    /// Position of the record of `a`, which is added, empty, if it is missing;
    /// what any address reads as is unchanged.
    fn issuer_slot(&mut self, a: Address) -> (r: usize)
        requires
            old(self).wf(),
        ensures
            r < final(self).issuers@.len(),
            final(self).issuers@[r as int].key == a,
            forall|j: int| r < j < final(self).issuers@.len() ==> final(self).issuers@[j].key != a,
            lookup(final(self).issuers@, a) == Some(final(self).issuers@[r as int].value),
            forall|b: Address| #[trigger] final(self).issuer_info(b) == old(self).issuer_info(b),
            final(self).same_but_issuers(old(self)),
    {
        match find(&self.issuers, a) {
            Some(i) => i,
            None => {
                let ghost pre = *self;
                let e = Entry {
                    key: a,
                    value: Issuer {
                        name: String::new(),
                        is_verified: false,
                        certificates_issued: 0,
                        reputation_score: 0,
                    },
                };
                self.issuers.push(e);
                proof {
                    assert forall|b: Address| #[trigger] self.issuer_info(b) == pre.issuer_info(b) by {
                        lemma_lookup_push(pre.issuers@, e, b);
                        assert(e.value.name@ =~= Seq::<char>::empty());
                    }
                    lemma_lookup_push(pre.issuers@, e, a);
                }
                self.issuers.len() - 1
            },
        }
    }

    /// Adds `issuer_address` as a verified issuer named `issuer_name`, or
    /// provisions it afresh: its count starts at 0 and its reputation at 50.
    pub fn add_verified_issuer(&mut self, caller: Address, issuer_address: Address, issuer_name: String) -> (r:
        Result<(), RegistryError>)
        requires
            old(self).wf(),
        ensures
            final(self).wf(),
            r is Ok <==> old(self).is_admin(caller),
            r is Err ==> r == Err::<(), RegistryError>(RegistryError::Unauthorized) && *final(self) == *old(self),
            r is Ok ==> {
                &&& final(self).issuer_info(issuer_address) == (
                    issuer_name@,
                    true,
                    0nat,
                    INITIAL_REPUTATION as nat,
                )
                &&& forall|b: Address| b != issuer_address ==> #[trigger] final(self).issuer_info(b)
                    == old(self).issuer_info(b)
                &&& final(self).same_but_issuers(old(self))
            },
    {
        if let Err(e) = self.only_owner(caller) {
            return Err(e);
        }
        let ghost start = *self;
        let i = self.issuer_slot(issuer_address);
        let ghost pre = *self;
        let e = Entry {
            key: issuer_address,
            value: Issuer {
                name: issuer_name,
                is_verified: true,
                certificates_issued: 0,
                reputation_score: INITIAL_REPUTATION,
            },
        };
        self.issuers.set(i, e);
        proof {
            assert forall|b: Address| #[trigger] self.issuer_info(b) == if b == issuer_address {
                (issuer_name@, true, 0nat, INITIAL_REPUTATION as nat)
            } else {
                start.issuer_info(b)
            } by {
                lemma_lookup_update(pre.issuers@, i as int, e, b);
                assert(pre.issuer_info(b) == start.issuer_info(b));
            }
            assert forall|a: Address| #[trigger] self.issuer_info(a).2 <= self.total_supply by {
                assert(start.issuer_info(a).2 <= start.total_supply);
            }
            assert forall|a: Address| #[trigger] self.tokens_of(a) == owned_ids(self.certificates@, a) by {
                assert(start.tokens_of(a) == owned_ids(start.certificates@, a));
            }
        }
        Ok(())
    }

    /// Clears the verified flag of `issuer_address`; name, count and
    /// reputation stay.
    pub fn remove_issuer(&mut self, caller: Address, issuer_address: Address) -> (r: Result<(), RegistryError>)
        requires
            old(self).wf(),
        ensures
            final(self).wf(),
            r is Ok <==> old(self).is_admin(caller),
            r is Err ==> r == Err::<(), RegistryError>(RegistryError::Unauthorized) && *final(self) == *old(self),
            r is Ok ==> {
                &&& final(self).issuer_info(issuer_address) == (
                    old(self).issuer_info(issuer_address).0,
                    false,
                    old(self).issuer_info(issuer_address).2,
                    old(self).issuer_info(issuer_address).3,
                )
                &&& forall|b: Address| b != issuer_address ==> #[trigger] final(self).issuer_info(b)
                    == old(self).issuer_info(b)
                &&& final(self).same_but_issuers(old(self))
            },
    {
        if let Err(e) = self.only_owner(caller) {
            return Err(e);
        }
        let ghost start = *self;
        let i = self.issuer_slot(issuer_address);
        let ghost pre = *self;
        self.issuers[i].value.is_verified = false;
        proof {
            let e2 = self.issuers@[i as int];
            assert(self.issuers@ == pre.issuers@.update(i as int, e2));
            assert forall|b: Address| #[trigger] self.issuer_info(b) == if b == issuer_address {
                (start.issuer_info(b).0, false, start.issuer_info(b).2, start.issuer_info(b).3)
            } else {
                start.issuer_info(b)
            } by {
                lemma_lookup_update(pre.issuers@, i as int, e2, b);
                assert(pre.issuer_info(b) == start.issuer_info(b));
            }
            assert forall|a: Address| #[trigger] self.issuer_info(a).2 <= self.total_supply by {
                assert(start.issuer_info(a).2 <= start.total_supply);
            }
            assert forall|a: Address| #[trigger] self.tokens_of(a) == owned_ids(self.certificates@, a) by {
                assert(start.tokens_of(a) == owned_ids(start.certificates@, a));
            }
        }
        Ok(())
    }

    /// Sets the reputation of `issuer_address` to `new_score`, which may not
    /// pass 100.
    pub fn update_issuer_reputation(&mut self, caller: Address, issuer_address: Address, new_score: u64) -> (r:
        Result<(), RegistryError>)
        requires
            old(self).wf(),
        ensures
            final(self).wf(),
            r is Ok <==> old(self).is_admin(caller) && new_score <= MAX_REPUTATION,
            !old(self).is_admin(caller) ==> r == Err::<(), RegistryError>(RegistryError::Unauthorized),
            old(self).is_admin(caller) && new_score > MAX_REPUTATION ==> r == Err::<(), RegistryError>(
                RegistryError::InvalidScore,
            ),
            r is Err ==> *final(self) == *old(self),
            r is Ok ==> {
                &&& final(self).issuer_info(issuer_address) == (
                    old(self).issuer_info(issuer_address).0,
                    old(self).issuer_info(issuer_address).1,
                    old(self).issuer_info(issuer_address).2,
                    new_score as nat,
                )
                &&& forall|b: Address| b != issuer_address ==> #[trigger] final(self).issuer_info(b)
                    == old(self).issuer_info(b)
                &&& final(self).same_but_issuers(old(self))
            },
    {
        if let Err(e) = self.only_owner(caller) {
            return Err(e);
        }
        if new_score > MAX_REPUTATION {
            return Err(RegistryError::InvalidScore);
        }
        let ghost start = *self;
        let i = self.issuer_slot(issuer_address);
        let ghost pre = *self;
        self.issuers[i].value.reputation_score = new_score;
        proof {
            let e2 = self.issuers@[i as int];
            assert(self.issuers@ == pre.issuers@.update(i as int, e2));
            assert forall|b: Address| #[trigger] self.issuer_info(b) == if b == issuer_address {
                (start.issuer_info(b).0, start.issuer_info(b).1, start.issuer_info(b).2, new_score as nat)
            } else {
                start.issuer_info(b)
            } by {
                lemma_lookup_update(pre.issuers@, i as int, e2, b);
                assert(pre.issuer_info(b) == start.issuer_info(b));
            }
            assert forall|a: Address| #[trigger] self.issuer_info(a).2 <= self.total_supply by {
                assert(start.issuer_info(a).2 <= start.total_supply);
            }
            assert forall|a: Address| #[trigger] self.tokens_of(a) == owned_ids(self.certificates@, a) by {
                assert(start.tokens_of(a) == owned_ids(start.certificates@, a));
            }
        }
        Ok(())
    }

    /// Name, verified flag, issued count and reputation of an issuer.
    pub fn get_issuer_info(&self, issuer_address: Address) -> (r: (String, bool, u64, u64))
        ensures
            (r.0@, r.1, r.2 as nat, r.3 as nat) == self.issuer_info(issuer_address),
    {
        match find(&self.issuers, issuer_address) {
            Some(i) => {
                let issuer = &self.issuers[i].value;
                (
                    issuer.name.clone(),
                    issuer.is_verified,
                    issuer.certificates_issued,
                    issuer.reputation_score,
                )
            },
            None => (String::new(), false, 0, 0),
        }
    }

    /// How many certificates were issued in all.
    pub fn total_supply(&self) -> (r: u64)
        ensures
            r == self.total_supply,
    {
        self.total_supply
    }

    /// How many certificates `owner` holds.
    pub fn balance_of(&self, owner: Address) -> (r: u64)
        requires
            self.wf(),
        ensures
            r == self.tokens_of(owner).len(),
    {
        proof {
            lemma_owned_ids_len(self.certificates@, owner);
        }
        match find(&self.owner_tokens, owner) {
            Some(i) => self.owner_tokens[i].value.len() as u64,
            None => 0,
        }
    }

    /// The recipient of certificate `token_id`; the zero address where no
    /// such certificate was issued.
    pub fn owner_of(&self, token_id: u64) -> (r: Address)
        ensures
            r == self.owner_of_spec(token_id as int),
    {
        if token_id == 0 || token_id as u128 > self.certificates.len() as u128 {
            return Address::zero();
        }
        self.certificates[(token_id - 1) as usize].recipient
    }

    /// The administrator; the zero address before the registry is set up.
    pub fn get_owner(&self) -> (r: Address)
        ensures
            r == self.owner,
    {
        self.owner
    }

    /// Skill, level, issuer, recipient, date and metadata of certificate
    /// `token_id`, which must exist: have a recipient other than zero.
    pub fn get_certificate(&self, token_id: u64) -> (r: Result<
        (String, u64, Address, Address, u64, String),
        RegistryError,
    >)
        ensures
            match self.cert(token_id as int) {
                Some(c) => if c.recipient != Address::spec_zero() {
                    r == Ok::<(String, u64, Address, Address, u64, String), RegistryError>(
                        (c.skill_name, c.level, c.issuer, c.recipient, c.issue_date, c.metadata_uri),
                    )
                } else {
                    r == Err::<(String, u64, Address, Address, u64, String), RegistryError>(
                        RegistryError::CertificateNotFound,
                    )
                },
                None => r == Err::<(String, u64, Address, Address, u64, String), RegistryError>(
                    RegistryError::CertificateNotFound,
                ),
            },
    {
        if token_id == 0 || token_id as u128 > self.certificates.len() as u128 {
            return Err(RegistryError::CertificateNotFound);
        }
        let c = &self.certificates[(token_id - 1) as usize];
        if c.recipient.is_zero() {
            return Err(RegistryError::CertificateNotFound);
        }
        Ok(
            (
                c.skill_name.clone(),
                c.level,
                c.issuer,
                c.recipient,
                c.issue_date,
                c.metadata_uri.clone(),
            ),
        )
    }

    /// The identifiers that `owner` holds, in the order they were issued.
    pub fn get_certificates_by_owner(&self, owner: Address) -> (r: Vec<u64>)
        ensures
            r@ == self.tokens_of(owner),
    {
        let mut out: Vec<u64> = Vec::new();
        match find(&self.owner_tokens, owner) {
            Some(i) => {
                let held = &self.owner_tokens[i].value;
                let mut k: usize = 0;
                while k < held.len()
                    invariant
                        k <= held@.len(),
                        out@ == held@.take(k as int),
                    decreases held@.len() - k,
                {
                    out.push(held[k]);
                    proof {
                        assert(out@ =~= held@.take(k + 1));
                    }
                    k = k + 1;
                }
                proof {
                    assert(held@.take(k as int) =~= held@);
                }
            },
            None => {
                proof {
                    assert(out@ =~= Seq::<u64>::empty());
                }
            },
        }
        out
    }
}

} // verus!
