//! The stored account record and the plain values it is made of.
//!
//! A record holds an ordered list of named canisters plus an opaque payload of
//! further ledger-specific bytes; migration copies records verbatim and never
//! looks inside the payload.

use vstd::prelude::*;

verus! {

/// Plain identifier of a canister. Remote systems identify canisters by an
/// opaque principal; this core only carries the identifier through, so it is
/// held as a number and converted at the boundary.
#[derive(Clone, Copy, PartialEq, Eq, Structural, Debug, Hash)]
pub struct CanisterId {
    pub id: u64,
}

impl CanisterId {
    pub fn from_u64(id: u64) -> (c: CanisterId)
        ensures
            c.id == id,
    {
        CanisterId { id }
    }
}

/// A canister attached to an account, under a user-chosen name.
#[derive(Clone, PartialEq, Eq, Debug)]
pub struct NamedCanister {
    pub name: String,
    pub canister_id: CanisterId,
}

/// Mathematical model of a [`NamedCanister`].
pub struct NamedCanisterSpec {
    pub name: Seq<char>,
    pub canister_id: CanisterId,
}

impl View for NamedCanister {
    type V = NamedCanisterSpec;

    open spec fn view(&self) -> NamedCanisterSpec {
        NamedCanisterSpec { name: self.name@, canister_id: self.canister_id }
    }
}

/// The stored value of one account: its canister list, and the rest of the
/// record as an opaque payload that is carried verbatim.
#[derive(Clone, PartialEq, Eq, Debug)]
pub struct AccountRecord {
    pub canisters: Vec<NamedCanister>,
    pub payload: Vec<u8>,
}

/// Mathematical model of an [`AccountRecord`].
#[verifier::ext_equal]
pub struct AccountSpec {
    pub canisters: Seq<NamedCanisterSpec>,
    pub payload: Seq<u8>,
}

impl View for AccountRecord {
    type V = AccountSpec;

    open spec fn view(&self) -> AccountSpec {
        AccountSpec {
            canisters: self.canisters@.map(|i: int, c: NamedCanister| c@),
            payload: self.payload@,
        }
    }
}

/// Copies a byte key; the copy denotes the same sequence.
pub fn copy_key(k: &Vec<u8>) -> (r: Vec<u8>)
    ensures
        r@ == k@,
{
    let mut r: Vec<u8> = Vec::new();
    let mut i: usize = 0;
    while i < k.len()
        invariant
            i <= k@.len(),
            r@ == k@.take(i as int),
        decreases k@.len() - i,
    {
        r.push(k[i]);
        proof {
            assert(r@ =~= k@.take(i as int + 1));
        }
        i += 1;
    }
    proof {
        assert(k@.take(k@.len() as int) =~= k@);
    }
    r
}

/// Copies a named canister; the copy denotes the same value.
pub fn copy_named_canister(c: &NamedCanister) -> (r: NamedCanister)
    ensures
        r@ == c@,
{
    NamedCanister { name: c.name.clone(), canister_id: c.canister_id }
}

/// Copies an account record; the copy denotes the same value. Migration and
/// reads use this to hand records out without disturbing the store.
pub fn copy_record(a: &AccountRecord) -> (r: AccountRecord)
    ensures
        r@ == a@,
{
    let mut canisters: Vec<NamedCanister> = Vec::new();
    let mut i: usize = 0;
    while i < a.canisters.len()
        invariant
            i <= a.canisters@.len(),
            canisters@.len() == i,
            forall|j: int| 0 <= j < i ==> #[trigger] canisters@[j]@ == a.canisters@[j]@,
        decreases a.canisters@.len() - i,
    {
        canisters.push(copy_named_canister(&a.canisters[i]));
        i += 1;
    }
    let payload = copy_key(&a.payload);
    let r = AccountRecord { canisters, payload };
    proof {
        assert forall|j: int| 0 <= j < a.canisters@.len()
            implies r@.canisters[j] == a@.canisters[j] by {
            assert(r@.canisters[j] == canisters@[j]@);
            assert(a@.canisters[j] == a.canisters@[j]@);
        }
        assert(r@.canisters =~= a@.canisters);
        assert(r@ =~= a@);
    }
    r
}

} // verus!
