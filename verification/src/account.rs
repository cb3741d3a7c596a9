//! Accounts, and the registry that maps each account to its live entity.

use vstd::prelude::*;
use crate::entity::Entity;
use crate::token::ClientToken;

verus! {

/// The address that a client connects from, as plain numbers: the family
/// (`v6`), the address itself (an IPv4 address fills the low 32 bits), the
/// port, and the two further fields that an IPv6 socket address carries
/// (zero for IPv4).
#[derive(Clone, Copy, Debug, PartialEq, Eq, Hash, Structural)]
pub struct PeerAddr {
    pub v6: bool,
    pub ip: u128,
    pub port: u16,
    pub flowinfo: u32,
    pub scope_id: u32,
}

/// The logical identity of a client, whatever socket it uses at the moment.
#[derive(Clone, Copy, Debug, PartialEq, Eq, Hash, Structural)]
pub enum Account {
    Guest { ip: PeerAddr },
}

/// The numbers under which the registry files an account.
pub type AccountKey = (u8, u128, u16, u32, u32);

/// The account that a token presented from `ip` resolves to.
pub fn auth(token: ClientToken, ip: PeerAddr) -> (account: Account)
    ensures
        account == (Account::Guest { ip }),
{
    match token {
        ClientToken::Guest => Account::Guest { ip },
    }
}

impl Account {
    /// What `key` yields.
    pub open spec fn key_spec(&self) -> AccountKey {
        match *self {
            Account::Guest { ip } => (if ip.v6 { 1u8 } else { 0u8 }, ip.ip, ip.port, ip.flowinfo, ip.scope_id),
        }
    }

    /// The key of the account in the registry.
    pub fn key(&self) -> (k: AccountKey)
        ensures
            k == self.key_spec(),
    {
        match *self {
            Account::Guest { ip } => {
                let family: u8 = if ip.v6 { 1 } else { 0 };
                (family, ip.ip, ip.port, ip.flowinfo, ip.scope_id)
            },
        }
    }

    /// Two accounts share a key only if they are the same account.
    pub proof fn key_is_injective(a: Account, b: Account)
        ensures
            a.key_spec() == b.key_spec() <==> a == b,
    {
    }
}

/// The registry of accounts: a `hashbrown::HashMap` from an account's key
/// to the number of the entity that plays for it. The map is taken on
/// trust: of what it holds only `account_entries` speaks, and only the
/// four functions below that call it say anything of that. Its keys are
/// tuples of integers, which hash and compare by their numbers.
#[verifier::external_body]
pub struct AccountMap {
    inner: hashbrown::HashMap<(u8, u128, u16, u32, u32), u64>,
}

/// What the registry holds: for each key that is present, the entity's number.
pub uninterp spec fn account_entries(m: AccountMap) -> Map<(u8, u128, u16, u32, u32), u64>;

impl AccountMap {
    /// The registry as a map from accounts to entities.
    pub open spec fn view(&self) -> Map<Account, Entity> {
        Map::new(
            |a: Account| account_entries(*self).dom().contains(a.key_spec()),
            |a: Account| Entity { bits: account_entries(*self)[a.key_spec()] },
        )
    }

    /// `hashbrown::HashMap::new`: a map that holds nothing.
    #[verifier::external_body]
    pub(crate) fn empty() -> (made: AccountMap)
        ensures
            account_entries(made) == (Map::<AccountKey, u64>::empty()),
    {
        AccountMap { inner: hashbrown::HashMap::new() }
    }

    /// `hashbrown::HashMap::get`: the value filed under `k`, if there is one.
    #[verifier::external_body]
    pub(crate) fn lookup(&self, k: &(u8, u128, u16, u32, u32)) -> (found: Option<u64>)
        ensures
            found == (if account_entries(*self).dom().contains(*k) {
                Some(account_entries(*self)[*k])
            } else {
                None
            }),
    {
        self.inner.get(k).copied()
    }

    /// `hashbrown::HashMap::insert`: afterwards `k` holds `v` and every other key
    /// holds what it held; the result is what `k` held before.
    #[verifier::external_body]
    pub(crate) fn file(&mut self, k: (u8, u128, u16, u32, u32), v: u64) -> (before: Option<u64>)
        ensures
            account_entries(*final(self)) == account_entries(*old(self)).insert(k, v),
            before == (if account_entries(*old(self)).dom().contains(k) {
                Some(account_entries(*old(self))[k])
            } else {
                None
            }),
    {
        self.inner.insert(k, v)
    }

    /// `hashbrown::HashMap::remove`: afterwards `k` is absent and every other key
    /// holds what it held; the result is what `k` held before.
    #[verifier::external_body]
    pub(crate) fn strike(&mut self, k: &(u8, u128, u16, u32, u32)) -> (before: Option<u64>)
        ensures
            account_entries(*final(self)) == account_entries(*old(self)).remove(*k),
            before == (if account_entries(*old(self)).dom().contains(*k) {
                Some(account_entries(*old(self))[*k])
            } else {
                None
            }),
    {
        self.inner.remove(k)
    }

    /// A registry without accounts.
    pub fn new() -> (made: AccountMap)
        ensures
            made@ == (Map::<Account, Entity>::empty()),
    {
        let made = AccountMap::empty();
        assert(made@ =~= Map::<Account, Entity>::empty());
        made
    }

    /// The entity that plays for `account`, if the account is registered.
    pub fn get(&self, account: &Account) -> (found: Option<Entity>)
        ensures
            found == (if self@.dom().contains(*account) { Some(self@[*account]) } else { None }),
    {
        let k = account.key();
        match self.lookup(&k) {
            Some(bits) => Some(Entity { bits }),
            None => None,
        }
    }

    /// Whether `account` is registered.
    pub fn contains(&self, account: &Account) -> (present: bool)
        ensures
            present == self@.dom().contains(*account),
    {
        let k = account.key();
        self.lookup(&k).is_some()
    }

    /// Registers `account` for `entity`, in place of what it was registered for.
    pub fn insert(&mut self, account: Account, entity: Entity)
        ensures
            final(self)@ == old(self)@.insert(account, entity),
    {
        let k = account.key();
        let _ = self.file(k, entity.bits);
        proof {
            assert forall|a: Account| a.key_spec() == account.key_spec() implies a == account by {
                Account::key_is_injective(a, account);
            }
            assert(final(self)@ =~= old(self)@.insert(account, entity));
        }
    }

    /// Frees `account`.
    pub fn remove(&mut self, account: &Account)
        ensures
            final(self)@ == old(self)@.remove(*account),
    {
        let k = account.key();
        let _ = self.strike(&k);
        proof {
            assert forall|a: Account| a.key_spec() == account.key_spec() implies a == *account by {
                Account::key_is_injective(a, *account);
            }
            assert(final(self)@ =~= old(self)@.remove(*account));
        }
    }
}

} // verus!
