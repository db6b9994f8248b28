//! Account identifiers, hashes and balances.
use vstd::prelude::*;

verus! {

/// Amount of tokens, as in the default contract environment.
pub type Balance = u128;

/// A 32-byte account identifier.
#[derive(Clone, Copy, Debug)]
pub struct AccountId(pub [u8; 32]);

/// A 32-byte hash of a document, such as the one a project scope refers to.
#[derive(Clone, Copy, Debug, PartialEq, Eq)]
pub struct DocumentHash(pub [u8; 32]);

impl PartialEq for AccountId {
    fn eq(&self, other: &AccountId) -> (r: bool) {
        let mut i: usize = 0;
        while i < 32
            invariant
                0 <= i <= 32,
                forall|j: int| 0 <= j < i ==> self.0@[j] == other.0@[j],
            decreases 32 - i,
        {
            if self.0[i] != other.0[i] {
                return false;
            }
            i = i + 1;
        }
        proof {
            vstd::array::axiom_array_ext_equal(self.0, other.0);
        }
        true
    }
}

impl Eq for AccountId {}

impl vstd::std_specs::cmp::PartialEqSpecImpl for AccountId {
    open spec fn obeys_eq_spec() -> bool {
        true
    }

    open spec fn eq_spec(&self, other: &AccountId) -> bool {
        *self == *other
    }
}

} // verus!
