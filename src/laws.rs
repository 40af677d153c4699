//! Properties that hold of every well-formed registry, stated over the
//! ledger and the ownership index.
use vstd::prelude::*;
use crate::registry::{owned_ids, lemma_owned_ids_sound, SkillChainNFT};
use crate::types::{Address, Certificate};

verus! {

/// The distinct recipients of ledger `s`, in the order of their first
/// certificate.
pub open spec fn recipients(s: Seq<Certificate>) -> Seq<Address>
    decreases s.len(),
{
    if s.len() == 0 {
        Seq::empty()
    } else {
        let p = recipients(s.drop_last());
        if p.contains(s.last().recipient) {
            p
        } else {
            p.push(s.last().recipient)
        }
    }
}

/// The balances of the addresses `owners` in `r`, added up.
pub open spec fn sum_balances(r: SkillChainNFT, owners: Seq<Address>) -> nat
    decreases owners.len(),
{
    if owners.len() == 0 {
        0
    } else {
        sum_balances(r, owners.drop_last()) + r.tokens_of(owners.last()).len()
    }
}

/// The lengths of `owned_ids(s, a)` over the addresses `owners`, added up.
pub open spec fn sum_owned(s: Seq<Certificate>, owners: Seq<Address>) -> nat
    decreases owners.len(),
{
    if owners.len() == 0 {
        0
    } else {
        sum_owned(s, owners.drop_last()) + owned_ids(s, owners.last()).len()
    }
}

proof fn lemma_sum_owned_push(s: Seq<Certificate>, c: Certificate, owners: Seq<Address>)
    requires
        owners.no_duplicates(),
    ensures
        sum_owned(s.push(c), owners) == sum_owned(s, owners) + if owners.contains(c.recipient) {
            1nat
        } else {
            0nat
        },
    decreases owners.len(),
{
    assert(s.push(c).drop_last() =~= s);
    if owners.len() > 0 {
        let p = owners.drop_last();
        assert(p.no_duplicates());
        lemma_sum_owned_push(s, c, p);
        if owners.last() == c.recipient {
            assert(!p.contains(c.recipient));
        }
        if p.contains(c.recipient) {
            let k = choose|k: int| 0 <= k < p.len() && p[k] == c.recipient;
            assert(owners[k] == c.recipient);
            assert(owners.contains(c.recipient));
        }
        if owners.contains(c.recipient) && owners.last() != c.recipient {
            let k = choose|k: int| 0 <= k < owners.len() && owners[k] == c.recipient;
            assert(p[k] == c.recipient);
        }
    }
}

proof fn lemma_recipients(s: Seq<Certificate>)
    ensures
        recipients(s).no_duplicates(),
        forall|a: Address| #[trigger] recipients(s).contains(a) <==> owned_ids(s, a).len() > 0,
        sum_owned(s, recipients(s)) == s.len(),
    decreases s.len(),
{
    if s.len() > 0 {
        let t = s.drop_last();
        let c = s.last();
        let p = recipients(t);
        lemma_recipients(t);
        assert(t.push(c) =~= s);
        lemma_sum_owned_push(t, c, p);
        assert forall|a: Address| #[trigger] owned_ids(s, a) == if c.recipient == a {
            owned_ids(t, a).push(c.token_id)
        } else {
            owned_ids(t, a)
        } by {
        }
        if !p.contains(c.recipient) {
            let q = p.push(c.recipient);
            assert(q.drop_last() =~= p);
            assert forall|i: int, j: int| 0 <= i < q.len() && 0 <= j < q.len() && i != j implies q[i] != q[j] by {
                if i == p.len() {
                    assert(p.contains(q[j]) ==> false || j != p.len());
                    if q[i] == q[j] {
                        assert(p[j] == c.recipient);
                    }
                } else if j == p.len() {
                    if q[i] == q[j] {
                        assert(p[i] == c.recipient);
                    }
                }
            }
            assert forall|a: Address| #[trigger] q.contains(a) <==> owned_ids(s, a).len() > 0 by {
                if a == c.recipient {
                    assert(q[p.len() as int] == a);
                } else if p.contains(a) {
                    let k = choose|k: int| 0 <= k < p.len() && p[k] == a;
                    assert(q[k] == a);
                } else if q.contains(a) {
                    let k = choose|k: int| 0 <= k < q.len() && q[k] == a;
                    assert(p[k] == a);
                }
            }
            lemma_sum_owned_push(s, c, p);
        } else {
            assert forall|a: Address| #[trigger] p.contains(a) <==> owned_ids(s, a).len() > 0 by {
            }
        }
    }
}

proof fn lemma_recipient_owns(s: Seq<Certificate>, i: int)
    requires
        0 <= i < s.len(),
    ensures
        owned_ids(s, s[i].recipient).len() > 0,
    decreases s.len(),
{
    if i < s.len() - 1 {
        lemma_recipient_owns(s.drop_last(), i);
    }
}

/// Where no certificate went to the zero address, `get_certificate` finds
/// exactly the identifiers from 1 to the total supply.
pub proof fn law_supply_counts_found_certificates(r: SkillChainNFT)
    requires
        r.wf(),
        r.tokens_of(Address::spec_zero()).len() == 0,
    ensures
        forall|id: int|
            (#[trigger] r.cert(id) is Some && r.cert(id)->Some_0.recipient != Address::spec_zero()) <==> 1 <= id
                <= r.total_supply,
{
    assert forall|id: int|
        (#[trigger] r.cert(id) is Some && r.cert(id)->Some_0.recipient != Address::spec_zero()) <==> 1 <= id
            <= r.total_supply by {
        if 1 <= id <= r.total_supply {
            lemma_recipient_owns(r.certificates@, id - 1);
            assert(r.tokens_of(Address::spec_zero()) == owned_ids(r.certificates@, Address::spec_zero()));
        }
    }
}

proof fn lemma_sum_balances(r: SkillChainNFT, owners: Seq<Address>)
    requires
        r.wf(),
    ensures
        sum_balances(r, owners) == sum_owned(r.certificates@, owners),
    decreases owners.len(),
{
    if owners.len() > 0 {
        lemma_sum_balances(r, owners.drop_last());
        assert(r.tokens_of(owners.last()) == owned_ids(r.certificates@, owners.last()));
    }
}

/// Every certificate recorded counts in the balance of exactly one owner:
/// the total supply is the sum of the balances of the addresses that ever
/// received a certificate, listed once each.
pub proof fn law_supply_is_sum_of_balances(r: SkillChainNFT)
    requires
        r.wf(),
    ensures
        recipients(r.certificates@).no_duplicates(),
        forall|a: Address| #[trigger] recipients(r.certificates@).contains(a) <==> r.tokens_of(a).len() > 0,
        r.total_supply == sum_balances(r, recipients(r.certificates@)),
{
    lemma_recipients(r.certificates@);
    lemma_sum_balances(r, recipients(r.certificates@));
    assert forall|a: Address| #[trigger] recipients(r.certificates@).contains(a) <==> r.tokens_of(a).len() > 0 by {
        assert(r.tokens_of(a) == owned_ids(r.certificates@, a));
    }
}

/// Each identifier that the index lists for an owner names a certificate
/// whose recipient is that owner.
pub proof fn law_index_matches_ledger(r: SkillChainNFT, a: Address)
    requires
        r.wf(),
    ensures
        forall|k: int| 0 <= k < r.tokens_of(a).len() ==> #[trigger] r.owner_of_spec(r.tokens_of(a)[k] as int) == a,
{
    assert forall|k: int| 0 <= k < r.tokens_of(a).len() implies #[trigger] r.owner_of_spec(r.tokens_of(a)[k] as int) == a by {
        assert(r.tokens_of(a) == owned_ids(r.certificates@, a));
        lemma_owned_ids_sound(r.certificates@, a, k);
    }
}

} // verus!
