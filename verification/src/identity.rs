//! Identity resolution at the registration boundary.
//!
//! Registering a candidate is gated on two collaborators: a resolver that
//! converts the candidate account into its stable operating identity, and
//! a check that the identity is known to the execution-identity subsystem.
//! Both are capability interfaces so that production and test variants are
//! interchangeable; each carries its answer as a specification function,
//! and every implementation proves that the executable answer agrees.

use vstd::prelude::*;

use crate::AccountId;

verus! {

/// Converts a candidate account into its stable operating identity.
pub trait IdentityResolver {
    /// The identity this resolver gives `who`, if any.
    spec fn spec_resolve(&self, who: AccountId) -> Option<AccountId>;

    /// Resolve `who` to its operating identity.
    fn resolve(&self, who: &AccountId) -> (r: Option<AccountId>)
        ensures
            r == self.spec_resolve(*who),
    ;
}

/// Confirms that an operating identity is registered with the
/// execution-identity subsystem.
pub trait RegistrationCheck {
    /// Whether this check recognises `id`.
    spec fn spec_is_registered(&self, id: AccountId) -> bool;

    /// Ask whether `id` is a registered identity.
    fn is_registered(&self, id: &AccountId) -> (r: bool)
        ensures
            r == self.spec_is_registered(*id),
    ;
}

/// The identity conversion of a chain without separate stash and operating
/// accounts: every account stands for itself.
pub struct IdentityCollator;

impl IdentityCollator {
    /// The conversion by itself: always the account, never missing.
    pub fn convert(t: AccountId) -> (r: Option<AccountId>)
        ensures
            r == Some(t),
    {
        Some(t)
    }
}

impl IdentityResolver for IdentityCollator {
    open spec fn spec_resolve(&self, who: AccountId) -> Option<AccountId> {
        Some(who)
    }

    fn resolve(&self, who: &AccountId) -> (r: Option<AccountId>) {
        Some(*who)
    }
}

/// First match of `who` among `(account, identity)` pairs.
pub open spec fn key_lookup(s: Seq<(AccountId, AccountId)>, who: AccountId) -> Option<AccountId>
    decreases s.len(),
{
    if s.len() == 0 {
        None
    } else if s[0].0 == who {
        Some(s[0].1)
    } else {
        key_lookup(s.drop_first(), who)
    }
}

/// A resolver backed by an explicit table of `(account, identity)` pairs,
/// as a runtime with a key store would provide; accounts outside the table
/// have no identity.
pub struct KeyedResolver {
    /// The table; the first matching pair answers.
    pub keys: Vec<(AccountId, AccountId)>,
}

impl IdentityResolver for KeyedResolver {
    open spec fn spec_resolve(&self, who: AccountId) -> Option<AccountId> {
        key_lookup(self.keys@, who)
    }

    fn resolve(&self, who: &AccountId) -> (r: Option<AccountId>) {
        let n = self.keys.len();
        let mut i: usize = 0;
        proof {
            assert(self.keys@.skip(0) =~= self.keys@);
        }
        while i < n
            invariant
                n == self.keys@.len(),
                i <= n,
                key_lookup(self.keys@, *who) == key_lookup(self.keys@.skip(i as int), *who),
            decreases n - i,
        {
            let pair = self.keys[i];
            proof {
                let rest = self.keys@.skip(i as int);
                assert(rest[0] == self.keys@[i as int]);
                assert(rest.drop_first() =~= self.keys@.skip(i + 1));
            }
            if pair.0 == *who {
                return Some(pair.1);
            }
            i += 1;
        }
        proof {
            assert(self.keys@.skip(n as int).len() == 0);
        }
        None
    }
}

/// A registration check backed by the list of identities the
/// execution-identity subsystem currently recognises.
pub struct RegisteredKeys {
    /// The recognised identities.
    pub members: Vec<AccountId>,
}

impl RegistrationCheck for RegisteredKeys {
    open spec fn spec_is_registered(&self, id: AccountId) -> bool {
        self.members@.contains(id)
    }

    fn is_registered(&self, id: &AccountId) -> (r: bool) {
        let n = self.members.len();
        let mut i: usize = 0;
        while i < n
            invariant
                n == self.members@.len(),
                i <= n,
                forall|j: int| 0 <= j < i ==> self.members@[j] != *id,
            decreases n - i,
        {
            if self.members[i] == *id {
                return true;
            }
            i += 1;
        }
        proof {
            if self.members@.contains(*id) {
                let j = choose|j: int| 0 <= j < self.members@.len() && self.members@[j] == *id;
                assert(false);
            }
        }
        false
    }
}

} // verus!
