//! Key pairs, the addresses derived from them, and a collection of wallets
//! kept by address.

use crate::codec::same_text;
use crate::errors::LedgerError;
use crate::hashing::{
    address_from_public_key, address_of, ed25519_keypair, ed25519_public_of, ed25519_secret_of,
    random_seed, ripemd160, ripemd160_of, sha256, sha256_of,
};
use vstd::prelude::*;

verus! {

/// An Ed25519 key pair.
#[derive(Debug)]
pub struct Wallet {
    pub secret_key: Vec<u8>,
    pub public_key: Vec<u8>,
}

/// What a wallet holds, as plain values.
pub struct WalletModel {
    pub secret_key: Seq<u8>,
    pub public_key: Seq<u8>,
}

impl View for Wallet {
    type V = WalletModel;

    open spec fn view(&self) -> WalletModel {
        WalletModel { secret_key: self.secret_key@, public_key: self.public_key@ }
    }
}

impl Clone for Wallet {
    fn clone(&self) -> (r: Self)
        ensures
            r@ == self@,
    {
        Wallet { secret_key: self.secret_key.clone(), public_key: self.public_key.clone() }
    }
}

/// A key pair derived from some seed.
pub open spec fn is_keypair(w: WalletModel) -> bool {
    exists|seed: Seq<u8>|
        w.secret_key == ed25519_secret_of(seed) && w.public_key == ed25519_public_of(seed)
}

impl Wallet {
    /// A key pair drawn from a fresh random seed; `EntropyUnavailable` when
    /// the operating system's generator fails.
    pub fn new() -> (r: Result<Wallet, LedgerError>)
        ensures
            match r {
                Ok(w) => is_keypair(w@) && w@.secret_key.len() == 64 && w@.public_key.len() == 32,
                Err(e) => e == LedgerError::EntropyUnavailable,
            },
    {
        match random_seed() {
            Some(seed) => {
                let (secret_key, public_key) = ed25519_keypair(seed.as_slice());
                Ok(Wallet { secret_key, public_key })
            },
            None => Err(LedgerError::EntropyUnavailable),
        }
    }

    /// The address that owns this wallet's public key.
    pub fn get_address(&self) -> (r: String)
        ensures
            r@ == address_of(self.public_key@),
    {
        address_from_public_key(self.public_key.as_slice())
    }
}

/// Replaces a public key by its hash: RIPEMD-160 over SHA-256.
pub fn hash_pub_key(pub_key: &mut Vec<u8>)
    ensures
        final(pub_key)@ == ripemd160_of(sha256_of(old(pub_key)@)),
        final(pub_key)@.len() == 20,
{
    let digest = sha256(pub_key.as_slice());
    *pub_key = ripemd160(digest.as_slice());
}

/// Wallets kept by address, each address at most once.
pub struct Wallets {
    wallets: Vec<(String, Wallet)>,
}

impl Wallets {
    /// The addresses, in the order in which they were added.
    pub closed spec fn addresses(&self) -> Seq<Seq<char>> {
        self.wallets@.map_values(|e: (String, Wallet)| e.0@)
    }

    /// The wallets, in the same order as their addresses.
    pub closed spec fn keys(&self) -> Seq<WalletModel> {
        self.wallets@.map_values(|e: (String, Wallet)| e.1@)
    }

    /// No address is held twice.
    pub open spec fn wf(&self) -> bool {
        &&& self.addresses().len() == self.keys().len()
        &&& forall|i: int, j: int|
            0 <= i < j < self.addresses().len() ==> self.addresses()[i] != self.addresses()[j]
    }

    /// The wallet kept under `address`, if any.
    pub open spec fn lookup(&self, address: Seq<char>) -> Option<WalletModel> {
        if exists|i: int| 0 <= i < self.addresses().len() && self.addresses()[i] == address {
            let i = choose|i: int| 0 <= i < self.addresses().len() && self.addresses()[i] == address;
            Some(self.keys()[i])
        } else {
            None
        }
    }

    /// An empty collection.
    pub fn new() -> (r: Wallets)
        ensures
            r.wf(),
            r.addresses().len() == 0,
    {
        Wallets { wallets: Vec::new() }
    }

    /// Keeps `wallet` under `address`, replacing the wallet kept there before.
    pub fn add_wallet(&mut self, address: String, wallet: Wallet)
        requires
            old(self).wf(),
        ensures
            final(self).wf(),
            final(self).lookup(address@) == Some(wallet@),
            forall|a: Seq<char>| a != address@ ==> final(self).lookup(a) == old(self).lookup(a),
    {
        let ghost wm = wallet@;
        let mut i: usize = 0;
        while i < self.wallets.len()
            invariant
                i <= self.wallets@.len(),
                self.wf(),
                self == old(self),
                wm == wallet@,
                forall|j: int| 0 <= j < i ==> self.addresses()[j] != address@,
            decreases self.wallets@.len() - i,
        {
            if same_text(self.wallets[i].0.as_str(), address.as_str()) {
                assert(self.addresses()[i as int] == address@);
                let ghost before = *self;
                self.wallets.set(i, (address, wallet));
                proof {
                    assert(self.addresses() =~= before.addresses());
                    assert forall|j: int| 0 <= j < self.keys().len() implies self.keys()[j] == before.keys().update(i as int, wm)[j] by {
                        if j != i {
                            assert(self.wallets@[j] == before.wallets@[j]);
                        } else {
                            assert(self.wallets@[j].1@ == wm);
                        }
                    }
                    assert(self.keys() =~= before.keys().update(i as int, wm));
                    assert forall|a: Seq<char>| a != address@ implies self.lookup(a) == before.lookup(a) by {
                        if exists|j: int| 0 <= j < before.addresses().len() && before.addresses()[j] == a {
                            let j = choose|j: int| 0 <= j < before.addresses().len() && before.addresses()[j] == a;
                            assert(j != i);
                        }
                    }
                    assert(self.addresses()[i as int] == address@);
                }
                return;
            }
            i = i + 1;
        }
        let ghost before = *self;
        self.wallets.push((address, wallet));
        proof {
            assert(self.addresses() =~= before.addresses().push(address@));
            assert(self.keys() =~= before.keys().push(wm));
            assert(self.addresses()[before.addresses().len() as int] == address@);
            assert forall|a: Seq<char>| a != address@ implies self.lookup(a) == before.lookup(a) by {
                if exists|j: int| 0 <= j < self.addresses().len() && self.addresses()[j] == a {
                    let j = choose|j: int| 0 <= j < self.addresses().len() && self.addresses()[j] == a;
                    assert(before.addresses()[j] == a);
                }
                if exists|j: int| 0 <= j < before.addresses().len() && before.addresses()[j] == a {
                    let j = choose|j: int| 0 <= j < before.addresses().len() && before.addresses()[j] == a;
                    assert(self.addresses()[j] == a);
                }
            }
        }
    }

    /// Makes a new wallet, keeps it under its address, and gives the
    /// address; `EntropyUnavailable`, with nothing changed, when no random
    /// seed can be had.
    pub fn create_wallet(&mut self) -> (r: Result<String, LedgerError>)
        requires
            old(self).wf(),
        ensures
            final(self).wf(),
            match r {
                Ok(a) => {
                    &&& final(self).lookup(a@) is Some
                    &&& a@ == address_of(final(self).lookup(a@).unwrap().public_key)
                    &&& is_keypair(final(self).lookup(a@).unwrap())
                    &&& forall|x: Seq<char>| x != a@ ==> final(self).lookup(x) == old(self).lookup(x)
                },
                Err(e) => e == LedgerError::EntropyUnavailable && *final(self) == *old(self),
            },
    {
        let wallet = Wallet::new()?;
        let address = wallet.get_address();
        self.add_wallet(address.clone(), wallet);
        Ok(address)
    }

    /// Every address, in the order in which they were added.
    pub fn get_all_addresses(&self) -> (r: Vec<String>)
        ensures
            r@.map_values(|a: String| a@) == self.addresses(),
    {
        let mut addresses: Vec<String> = Vec::new();
        let mut i: usize = 0;
        while i < self.wallets.len()
            invariant
                i <= self.wallets@.len(),
                addresses@.len() == i,
                forall|j: int| 0 <= j < i ==> #[trigger] addresses@[j]@ == self.addresses()[j],
            decreases self.wallets@.len() - i,
        {
            addresses.push(self.wallets[i].0.clone());
            i = i + 1;
        }
        proof {
            assert(addresses@.map_values(|a: String| a@) =~= self.addresses());
        }
        addresses
    }

    /// The wallet kept under `address`, if any.
    pub fn get_wallet(&self, address: &str) -> (r: Option<&Wallet>)
        requires
            self.wf(),
        ensures
            match r {
                Some(w) => self.lookup(address@) == Some(w@),
                None => self.lookup(address@) is None,
            },
    {
        let mut i: usize = 0;
        while i < self.wallets.len()
            invariant
                i <= self.wallets@.len(),
                self.wf(),
                forall|j: int| 0 <= j < i ==> self.addresses()[j] != address@,
            decreases self.wallets@.len() - i,
        {
            if same_text(self.wallets[i].0.as_str(), address) {
                proof {
                    assert(self.addresses()[i as int] == address@);
                    let c = choose|c: int| 0 <= c < self.addresses().len() && self.addresses()[c] == address@;
                    assert(c == i as int);
                    assert(self.keys()[i as int] == self.wallets@[i as int].1@);
                }
                return Some(&self.wallets[i].1);
            }
            i = i + 1;
        }
        None
    }

    /// Every kept wallet with its address, in the order in which they were added.
    pub fn entries(&self) -> (r: &Vec<(String, Wallet)>)
        ensures
            r@.map_values(|e: (String, Wallet)| e.0@) == self.addresses(),
            r@.map_values(|e: (String, Wallet)| e.1@) == self.keys(),
    {
        &self.wallets
    }
}

} // verus!
