//! The account store.
//!
//! A ledger is a journal of `(address, account)` entries; the latest
//! entry for an address wins, and absent addresses read as the zero
//! account. A call frame works on a snapshot, and the parent either
//! adopts the frame's ledger (commit) or keeps its own (discard), which
//! gives each nested context an independent overlay.

use vstd::prelude::*;
use crate::account::{
    Account, AccountV, Address, clone_account, slots_view, slot_val, zero_account_v,
};
use crate::exit::ValidationError;
use crate::word::{U256, pow256};

verus! {

/// Journal semantics for the account map: the latest entry wins.
pub open spec fn accounts_view(s: Seq<(Address, Account)>) -> Map<int, AccountV>
    decreases s.len(),
{
    if s.len() == 0 {
        Map::empty()
    } else {
        accounts_view(s.drop_last()).insert(s.last().0.val(), s.last().1.model())
    }
}

/// Reads an account map totally: absent addresses are zero accounts.
pub open spec fn acct_at(m: Map<int, AccountV>, a: int) -> AccountV {
    if m.dom().contains(a) {
        m[a]
    } else {
        zero_account_v()
    }
}

pub struct Ledger {
    pub accounts: Vec<(Address, Account)>,
}

impl Ledger {
    pub open spec fn model(&self) -> Map<int, AccountV> {
        accounts_view(self.accounts@)
    }

    pub fn new() -> (r: Ledger)
        ensures
            r.model() == Map::<int, AccountV>::empty(),
    {
        Ledger { accounts: Vec::new() }
    }

    /// The account recorded for `addr`, or the zero account.
    pub fn get_account(&self, addr: &Address) -> (r: Account)
        ensures
            r.model() == acct_at(self.model(), addr.val()),
    {
        let mut i: usize = self.accounts.len();
        proof {
            assert(self.accounts@.take(i as int) =~= self.accounts@);
        }
        while i > 0
            invariant
                i <= self.accounts@.len(),
                acct_at(accounts_view(self.accounts@), addr.val()) == acct_at(
                    accounts_view(self.accounts@.take(i as int)),
                    addr.val(),
                ),
            decreases i,
        {
            proof {
                assert(self.accounts@.take(i as int).drop_last() =~= self.accounts@.take(
                    i - 1 as int,
                ));
                assert(self.accounts@.take(i as int).last() == self.accounts@[i - 1]);
            }
            if self.accounts[i - 1].0.eq_addr(addr) {
                return clone_account(&self.accounts[i - 1].1);
            }
            i = i - 1;
        }
        proof {
            assert(self.accounts@.take(0) =~= Seq::<(Address, Account)>::empty());
        }
        Account::zeroed()
    }

    /// Appends a journal entry for `addr`.
    fn put_account(&mut self, addr: Address, acc: Account)
        ensures
            final(self).model() == old(self).model().insert(addr.val(), acc.model()),
    {
        self.accounts.push((addr, acc));
        proof {
            assert(self.accounts@.drop_last() =~= old(self).accounts@);
        }
    }

    /// Seeds one genesis entry; used only at ledger initialization.
    pub fn genesis_insert(
        &mut self,
        addr: Address,
        balance: U256,
        nonce: u64,
        code: Vec<u8>,
        storage: Vec<(U256, U256)>,
    )
        ensures
            final(self).model() == old(self).model().insert(
                addr.val(),
                AccountV {
                    balance: balance.val(),
                    nonce: nonce as int,
                    code: code@,
                    storage: slots_view(storage@),
                },
            ),
    {
        self.put_account(addr, Account { balance, nonce, code, storage });
    }

    pub fn set_balance(&mut self, addr: &Address, value: U256)
        ensures
            final(self).model() == old(self).model().insert(
                addr.val(),
                AccountV { balance: value.val(), ..acct_at(old(self).model(), addr.val()) },
            ),
    {
        let mut acc = self.get_account(addr);
        acc.balance = value;
        self.put_account(*addr, acc);
    }

    /// Advances the account's nonce; it saturates at the largest
    /// representable value rather than wrapping.
    pub fn increment_nonce(&mut self, addr: &Address)
        ensures
            final(self).model() == old(self).model().insert(
                addr.val(),
                AccountV {
                    nonce: if acct_at(old(self).model(), addr.val()).nonce == u64::MAX {
                        u64::MAX as int
                    } else {
                        acct_at(old(self).model(), addr.val()).nonce + 1
                    },
                    ..acct_at(old(self).model(), addr.val())
                },
            ),
    {
        let mut acc = self.get_account(addr);
        if acc.nonce < u64::MAX {
            acc.nonce = acc.nonce + 1;
        }
        self.put_account(*addr, acc);
    }

    /// Installs code at `addr`. Code is set exactly once: a second
    /// write to an account whose code is non-empty is refused.
    pub fn set_code(&mut self, addr: &Address, code: Vec<u8>) -> (r: Result<(), ValidationError>)
        ensures
            match r {
                Ok(()) => acct_at(old(self).model(), addr.val()).code.len() == 0
                    && final(self).model() == old(self).model().insert(
                    addr.val(),
                    AccountV { code: code@, ..acct_at(old(self).model(), addr.val()) },
                ),
                Err(e) => e == ValidationError::CodeAlreadySet
                    && acct_at(old(self).model(), addr.val()).code.len() > 0
                    && *final(self) == *old(self),
            },
    {
        let mut acc = self.get_account(addr);
        if acc.code.len() > 0 {
            return Err(ValidationError::CodeAlreadySet);
        }
        acc.code = code;
        self.put_account(*addr, acc);
        Ok(())
    }

    /// The value stored for `key` under `addr`; zero when unset.
    pub fn read_storage(&self, addr: &Address, key: &U256) -> (r: U256)
        ensures
            r.val() == slot_val(acct_at(self.model(), addr.val()).storage, key.val()),
    {
        let acc = self.get_account(addr);
        acc.read_slot(key)
    }

    pub fn write_storage(&mut self, addr: &Address, key: U256, value: U256)
        ensures
            final(self).model() == old(self).model().insert(
                addr.val(),
                AccountV {
                    storage: acct_at(old(self).model(), addr.val()).storage.insert(
                        key.val(),
                        value.val(),
                    ),
                    ..acct_at(old(self).model(), addr.val())
                },
            ),
    {
        let mut acc = self.get_account(addr);
        acc.write_slot(key, value);
        self.put_account(*addr, acc);
    }

    /// Moves `value` from `from` to `to`. Fails, leaving the ledger
    /// unchanged, when the sender's balance is short or the credit
    /// would wrap past 2^256.
    pub fn transfer(&mut self, from: &Address, to: &Address, value: &U256) -> (r: bool)
        ensures
            ({
                let f = acct_at(old(self).model(), from.val());
                let t = acct_at(old(self).model(), to.val());
                if from.val() == to.val() {
                    (r <==> f.balance >= value.val()) && *final(self) == *old(self)
                } else {
                    (r <==> (f.balance >= value.val() && t.balance + value.val() < pow256()))
                        && (r ==> final(self).model() == old(self).model().insert(
                        from.val(),
                        AccountV { balance: f.balance - value.val(), ..f },
                    ).insert(to.val(), AccountV { balance: t.balance + value.val(), ..t })) && (!r
                        ==> *final(self) == *old(self))
                }
            }),
    {
        if from.eq_addr(to) {
            let acc = self.get_account(from);
            return !acc.balance.lt(value);
        }
        let from_acc = self.get_account(from);
        match from_acc.balance.checked_sub(value) {
            None => false,
            Some(nb_from) => {
                let to_acc = self.get_account(to);
                match to_acc.balance.checked_add(value) {
                    None => false,
                    Some(nb_to) => {
                        let mut fa = from_acc;
                        fa.balance = nb_from;
                        self.put_account(*from, fa);
                        let mut ta = to_acc;
                        ta.balance = nb_to;
                        self.put_account(*to, ta);
                        true
                    },
                }
            },
        }
    }

    /// A copy with the same mathematical content, used to snapshot the
    /// store before a nested frame runs.
    pub fn snapshot(&self) -> (r: Ledger)
        ensures
            r.model() == self.model(),
    {
        let mut acc: Vec<(Address, Account)> = Vec::new();
        let mut i: usize = 0;
        proof {
            assert(self.accounts@.take(0) =~= Seq::<(Address, Account)>::empty());
            assert(acc@ =~= Seq::<(Address, Account)>::empty());
        }
        while i < self.accounts.len()
            invariant
                i <= self.accounts@.len(),
                accounts_view(acc@) == accounts_view(self.accounts@.take(i as int)),
            decreases self.accounts@.len() - i,
        {
            let a = self.accounts[i].0;
            let e = clone_account(&self.accounts[i].1);
            let ghost pre = acc@;
            acc.push((a, e));
            proof {
                assert(acc@.drop_last() =~= pre);
                assert(self.accounts@.take(i + 1 as int).drop_last() =~= self.accounts@.take(
                    i as int,
                ));
                assert(self.accounts@.take(i + 1 as int).last() == self.accounts@[i as int]);
            }
            i = i + 1;
        }
        proof {
            assert(self.accounts@.take(self.accounts@.len() as int) =~= self.accounts@);
        }
        Ledger { accounts: acc }
    }
}

/// Reading a storage key immediately after writing it within the same
/// context returns the written value: a write through `write_storage`
/// is observed by the very next `read_storage` of the same key.
pub proof fn lemma_storage_round_trip(m: Map<int, AccountV>, a: int, k: int, v: int)
    ensures
        slot_val(
            acct_at(
                m.insert(
                    a,
                    AccountV { storage: acct_at(m, a).storage.insert(k, v), ..acct_at(m, a) },
                ),
                a,
            ).storage,
            k,
        ) == v,
{
}

} // verus!
