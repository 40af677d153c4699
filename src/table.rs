//! Records keyed by address, kept in a vector; the last record of a key wins.
use vstd::prelude::*;
use crate::types::Address;

verus! {

pub struct Entry<T> {
    pub key: Address,
    pub value: T,
}

/// The value that the last record with key `a` holds, if there is one.
pub open spec fn lookup<T>(s: Seq<Entry<T>>, a: Address) -> Option<T>
    decreases s.len(),
{
    if s.len() == 0 {
        None
    } else if s.last().key == a {
        Some(s.last().value)
    } else {
        lookup(s.drop_last(), a)
    }
}

/// Position of the record that `lookup` reads for `a`, if any.
pub fn find<T>(s: &Vec<Entry<T>>, a: Address) -> (r: Option<usize>)
    ensures
        match r {
            None => lookup(s@, a) is None,
            Some(i) => {
                &&& i < s@.len()
                &&& s@[i as int].key == a
                &&& lookup(s@, a) == Some(s@[i as int].value)
                &&& forall|j: int| i < j < s@.len() ==> s@[j].key != a
            },
        },
{
    let mut i: usize = s.len();
    proof {
        assert(s@.take(i as int) =~= s@);
    }
    while i > 0
        invariant
            i <= s@.len(),
            lookup(s@, a) == lookup(s@.take(i as int), a),
            forall|j: int| i <= j < s@.len() ==> s@[j].key != a,
        decreases i,
    {
        proof {
            assert(s@.take(i as int).drop_last() =~= s@.take(i - 1));
        }
        if s[i - 1].key == a {
            return Some(i - 1);
        }
        i = i - 1;
    }
    None
}

pub proof fn lemma_lookup_push<T>(s: Seq<Entry<T>>, e: Entry<T>, b: Address)
    ensures
        lookup(s.push(e), b) == if b == e.key {
            Some(e.value)
        } else {
            lookup(s, b)
        },
{
    assert(s.push(e).drop_last() =~= s);
}

pub proof fn lemma_lookup_update<T>(s: Seq<Entry<T>>, i: int, e: Entry<T>, b: Address)
    requires
        0 <= i < s.len(),
        e.key == s[i].key,
        forall|j: int| i < j < s.len() ==> s[j].key != e.key,
    ensures
        lookup(s.update(i, e), b) == if b == e.key {
            Some(e.value)
        } else {
            lookup(s, b)
        },
    decreases s.len(),
{
    if i == s.len() - 1 {
        assert(s.update(i, e).drop_last() =~= s.drop_last());
    } else {
        assert(s.update(i, e).drop_last() =~= s.drop_last().update(i, e));
        lemma_lookup_update(s.drop_last(), i, e, b);
    }
}

} // verus!
