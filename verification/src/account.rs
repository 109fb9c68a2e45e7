//! Addresses and account records.
//!
//! An account's persistent storage is kept as a journal of writes; the
//! latest entry for a key wins, and absent keys read as zero.

use vstd::prelude::*;
use crate::word::{U256, pow64, pow128, pow192};

verus! {

pub open spec fn pow160() -> int {
    pow32() * pow128()
}

pub open spec fn pow32() -> int {
    0x1_0000_0000int
}

/// A 160-bit account identity; `lo` is the least significant part.
#[derive(Clone, Copy, PartialEq, Eq, Structural, Debug)]
pub struct Address {
    pub hi: u32,
    pub mid: u64,
    pub lo: u64,
}

impl Address {
    /// The mathematical value of the address, in `[0, 2^160)`.
    pub open spec fn val(&self) -> int {
        self.lo + self.mid * pow64() + self.hi * pow128()
    }

    pub fn zero() -> (r: Address)
        ensures
            r.val() == 0,
    {
        Address { hi: 0, mid: 0, lo: 0 }
    }

    /// Field equality decides value equality.
    pub fn eq_addr(&self, other: &Address) -> (r: bool)
        ensures
            r <==> self.val() == other.val(),
    {
        proof {
            if self.val() == other.val() {
                lemma_addr_injective(*self, *other);
            }
        }
        self.lo == other.lo && self.mid == other.mid && self.hi == other.hi
    }

    /// The low 160 bits of a word, as an address.
    pub fn from_word(w: &U256) -> (r: Address)
        ensures
            r.val() == w.val() % pow160(),
    {
        let hi: u32 = (w.l2 % 0x1_0000_0000) as u32;
        let r = Address { hi, mid: w.l1, lo: w.l0 };
        proof {
            lemma_addr_from_word(*w, r);
        }
        r
    }

    /// The address as a word, zero-extended.
    pub fn to_word(&self) -> (r: U256)
        ensures
            r.val() == self.val(),
    {
        U256 { l0: self.lo, l1: self.mid, l2: self.hi as u64, l3: 0 }
    }
}

/// Two addresses with the same value are the same address.
pub proof fn lemma_addr_injective(a: Address, b: Address)
    requires
        a.val() == b.val(),
    ensures
        a == b,
{
    lemma_addr_parts(a);
    lemma_addr_parts(b);
}

proof fn lemma_addr_parts(a: Address)
    ensures
        a.lo == a.val() % pow64(),
        a.mid == (a.val() / pow64()) % pow64(),
        a.hi == a.val() / pow128(),
{
    let v = a.val();
    let q0 = a.mid + a.hi * pow64();
    assert(v == q0 * pow64() + a.lo) by (nonlinear_arith)
        requires
            v == a.lo + a.mid * pow64() + a.hi * pow128(),
            q0 == a.mid + a.hi * pow64(),
    ;
    vstd::arithmetic::div_mod::lemma_fundamental_div_mod_converse(v, pow64(), q0, a.lo as int);
    vstd::arithmetic::div_mod::lemma_fundamental_div_mod_converse(
        q0,
        pow64(),
        a.hi as int,
        a.mid as int,
    );
    assert(v / pow128() == q0 / pow64()) by {
        vstd::arithmetic::div_mod::lemma_div_denominator(v, pow64(), pow64());
    }
}

proof fn lemma_addr_from_word(w: U256, r: Address)
    requires
        r.lo == w.l0,
        r.mid == w.l1,
        r.hi == (w.l2 as int) % pow32(),
    ensures
        r.val() == w.val() % pow160(),
{
    let q = (w.l2 as int) / pow32();
    let hi = r.hi as int;
    vstd::arithmetic::div_mod::lemma_fundamental_div_mod(w.l2 as int, pow32());
    assert((w.l2 as int) * pow128() == q * pow160() + hi * pow128()) by (nonlinear_arith)
        requires
            w.l2 == pow32() * q + hi,
    ;
    assert((w.l3 as int) * pow192() == (w.l3 * pow32()) * pow160()) by (nonlinear_arith);
    assert(w.val() == (q + w.l3 * pow32()) * pow160() + r.val()) by (nonlinear_arith)
        requires
            w.val() == w.l0 + w.l1 * pow64() + w.l2 * pow128() + w.l3 * pow192(),
            (w.l2 as int) * pow128() == q * pow160() + hi * pow128(),
            (w.l3 as int) * pow192() == (w.l3 * pow32()) * pow160(),
            r.val() == w.l0 + w.l1 * pow64() + hi * pow128(),
    ;
    assert(0 <= r.val() < pow160()) by (nonlinear_arith)
        requires
            r.val() == w.l0 + w.l1 * pow64() + r.hi * pow128(),
            0 <= w.l0 < pow64(),
            0 <= w.l1 < pow64(),
            0 <= r.hi < pow32(),
    ;
    vstd::arithmetic::div_mod::lemma_fundamental_div_mod_converse(
        w.val(),
        pow160(),
        q + w.l3 * pow32(),
        r.val(),
    );
}

/// The mathematical content of an account record.
pub ghost struct AccountV {
    pub balance: int,
    pub nonce: int,
    pub code: Seq<u8>,
    pub storage: Map<int, int>,
}

/// The account every absent address reads as.
pub open spec fn zero_account_v() -> AccountV {
    AccountV { balance: 0, nonce: 0, code: Seq::empty(), storage: Map::empty() }
}

/// Storage journal semantics: the latest write for a key wins.
pub open spec fn slots_view(s: Seq<(U256, U256)>) -> Map<int, int>
    decreases s.len(),
{
    if s.len() == 0 {
        Map::empty()
    } else {
        slots_view(s.drop_last()).insert(s.last().0.val(), s.last().1.val())
    }
}

/// Reads a storage map totally: absent keys are zero.
pub open spec fn slot_val(m: Map<int, int>, k: int) -> int {
    if m.dom().contains(k) {
        m[k]
    } else {
        0
    }
}

/// One ledger entry: balance, nonce, immutable code, and storage.
#[derive(Debug)]
pub struct Account {
    pub balance: U256,
    pub nonce: u64,
    pub code: Vec<u8>,
    pub storage: Vec<(U256, U256)>,
}

impl Account {
    pub open spec fn model(&self) -> AccountV {
        AccountV {
            balance: self.balance.val(),
            nonce: self.nonce as int,
            code: self.code@,
            storage: slots_view(self.storage@),
        }
    }

    pub fn zeroed() -> (r: Account)
        ensures
            r.model() == zero_account_v(),
    {
        let r = Account { balance: U256::zero(), nonce: 0, code: Vec::new(), storage: Vec::new() };
        proof {
            assert(r.model().code =~= zero_account_v().code);
            assert(r.model().storage =~= zero_account_v().storage);
        }
        r
    }

    /// The latest journal entry for `key`, or zero.
    pub fn read_slot(&self, key: &U256) -> (r: U256)
        ensures
            r.val() == slot_val(self.model().storage, key.val()),
    {
        let mut i: usize = self.storage.len();
        proof {
            assert(self.storage@.take(i as int) =~= self.storage@);
        }
        while i > 0
            invariant
                i <= self.storage@.len(),
                slot_val(slots_view(self.storage@), key.val()) == slot_val(
                    slots_view(self.storage@.take(i as int)),
                    key.val(),
                ),
            decreases i,
        {
            let k = self.storage[i - 1].0;
            let v = self.storage[i - 1].1;
            proof {
                assert(self.storage@.take(i as int).drop_last() =~= self.storage@.take(
                    i - 1 as int,
                ));
                assert(self.storage@.take(i as int).last() == self.storage@[i - 1]);
            }
            if k.eq_word(key) {
                return v;
            }
            i = i - 1;
        }
        proof {
            assert(self.storage@.take(0) =~= Seq::<(U256, U256)>::empty());
        }
        U256::zero()
    }

    /// Appends a journal entry for `key`.
    pub fn write_slot(&mut self, key: U256, value: U256)
        ensures
            final(self).model() == (AccountV {
                storage: old(self).model().storage.insert(key.val(), value.val()),
                ..old(self).model()
            }),
    {
        self.storage.push((key, value));
        proof {
            assert(self.storage@.drop_last() =~= old(self).storage@);
        }
    }
}

/// Byte-for-byte copy of a byte vector.
pub fn clone_bytes(v: &Vec<u8>) -> (r: Vec<u8>)
    ensures
        r@ == v@,
{
    let mut r: Vec<u8> = Vec::new();
    let mut i: usize = 0;
    while i < v.len()
        invariant
            i <= v@.len(),
            r@ =~= v@.take(i as int),
        decreases v@.len() - i,
    {
        r.push(v[i]);
        i = i + 1;
    }
    proof {
        assert(v@.take(v@.len() as int) =~= v@);
    }
    r
}

/// Entry-for-entry copy of a storage journal.
pub fn clone_slots(v: &Vec<(U256, U256)>) -> (r: Vec<(U256, U256)>)
    ensures
        r@ == v@,
{
    let mut r: Vec<(U256, U256)> = Vec::new();
    let mut i: usize = 0;
    while i < v.len()
        invariant
            i <= v@.len(),
            r@ =~= v@.take(i as int),
        decreases v@.len() - i,
    {
        r.push(v[i]);
        i = i + 1;
    }
    proof {
        assert(v@.take(v@.len() as int) =~= v@);
    }
    r
}

/// A copy with the same mathematical content.
pub fn clone_account(a: &Account) -> (r: Account)
    ensures
        r.model() == a.model(),
{
    Account {
        balance: a.balance,
        nonce: a.nonce,
        code: clone_bytes(&a.code),
        storage: clone_slots(&a.storage),
    }
}

} // verus!
