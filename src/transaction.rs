//! Transactions: inputs that spend earlier outputs, outputs that lock value
//! to an address, and the coinbase that mints the block reward.

use crate::codec::{enc_tx, encode_transaction, same_text};
use crate::errors::LedgerError;
use crate::hashing::{
    address_from_public_key, address_of, ed25519_accepts, ed25519_sign, ed25519_signature_of,
    ed25519_verify, hex_of, sha256, sha256_hex, sha256_of,
};
use vstd::prelude::*;
use vstd::string::*;
use vstd::utf8::*;

verus! {

/// A reference to an earlier output, with the proof that unlocks it.
#[derive(Debug)]
pub struct TXInput {
    /// Id of the transaction whose output is spent; empty for a coinbase.
    pub txid: String,
    /// Position of the spent output in that transaction; -1 for a coinbase.
    pub vout: i32,
    /// Signature over the input's signing digest; empty for a coinbase.
    pub signature: Vec<u8>,
    /// Public key of the spender; the reward memo's bytes for a coinbase.
    pub pub_key: Vec<u8>,
}

/// An amount of value locked to an address.
#[derive(Debug)]
pub struct TXOutput {
    pub value: i32,
    /// The address that may spend this output.
    pub script_pub_key: String,
}

/// A transfer of value, identified by the digest of its unsigned content.
#[derive(Debug)]
pub struct Transaction {
    pub id: String,
    pub vin: Vec<TXInput>,
    pub vout: Vec<TXOutput>,
}

/// What an input holds, as plain values.
pub struct InputModel {
    pub txid: Seq<char>,
    pub vout: i32,
    pub signature: Seq<u8>,
    pub pub_key: Seq<u8>,
}

/// What an output holds, as plain values.
pub struct OutputModel {
    pub value: i32,
    pub key: Seq<char>,
}

/// What a transaction holds, as plain values.
pub struct TxModel {
    pub id: Seq<char>,
    pub vin: Seq<InputModel>,
    pub vout: Seq<OutputModel>,
}

impl View for TXInput {
    type V = InputModel;

    open spec fn view(&self) -> InputModel {
        InputModel {
            txid: self.txid@,
            vout: self.vout,
            signature: self.signature@,
            pub_key: self.pub_key@,
        }
    }
}

impl View for TXOutput {
    type V = OutputModel;

    open spec fn view(&self) -> OutputModel {
        OutputModel { value: self.value, key: self.script_pub_key@ }
    }
}

impl View for Transaction {
    type V = TxModel;

    open spec fn view(&self) -> TxModel {
        TxModel {
            id: self.id@,
            vin: self.vin@.map_values(|i: TXInput| i@),
            vout: self.vout@.map_values(|o: TXOutput| o@),
        }
    }
}

impl Clone for TXInput {
    fn clone(&self) -> (r: Self)
        ensures
            r@ == self@,
    {
        TXInput {
            txid: self.txid.clone(),
            vout: self.vout,
            signature: self.signature.clone(),
            pub_key: self.pub_key.clone(),
        }
    }
}

impl Clone for TXOutput {
    fn clone(&self) -> (r: Self)
        ensures
            r@ == self@,
    {
        TXOutput { value: self.value, script_pub_key: self.script_pub_key.clone() }
    }
}

impl Clone for Transaction {
    fn clone(&self) -> (r: Self)
        ensures
            r@ == self@,
    {
        let vin = self.vin.clone();
        let vout = self.vout.clone();
        proof {
            assert forall|i: int| 0 <= i < vin@.len() implies vin@[i]@ == self.vin@[i]@ by {
                assert(cloned::<TXInput>(self.vin[i], vin[i]));
            }
            assert forall|i: int| 0 <= i < vout@.len() implies vout@[i]@ == self.vout@[i]@ by {
                assert(cloned::<TXOutput>(self.vout[i], vout[i]));
            }
            assert(vin@.map_values(|i: TXInput| i@) =~= self.vin@.map_values(|i: TXInput| i@));
            assert(vout@.map_values(|o: TXOutput| o@) =~= self.vout@.map_values(|o: TXOutput| o@));
        }
        Transaction { id: self.id.clone(), vin, vout }
    }
}

/// The value that a coinbase transaction mints.
pub const SUBSIDY: i32 = 10;

/// The views of a sequence of transactions.
pub open spec fn models(v: Seq<Transaction>) -> Seq<TxModel> {
    v.map_values(|t: Transaction| t@)
}

/// The transaction with its id emptied and every signature stripped: what its id digests.
pub open spec fn unsigned(t: TxModel) -> TxModel {
    TxModel {
        id: Seq::empty(),
        vin: Seq::new(
            t.vin.len(),
            |j: int|
                InputModel {
                    txid: t.vin[j].txid,
                    vout: t.vin[j].vout,
                    signature: Seq::empty(),
                    pub_key: t.vin[j].pub_key,
                },
        ),
        vout: t.vout,
    }
}

/// The id of a transaction: the hex SHA-256 of its unsigned encoding.
pub open spec fn id_of(t: TxModel) -> Seq<char> {
    hex_of(sha256_of(enc_tx(unsigned(t))))
}

/// The transaction with its id set to `id_of`.
pub open spec fn with_id(t: TxModel) -> TxModel {
    TxModel { id: id_of(t), vin: t.vin, vout: t.vout }
}

/// The memo of a coinbase input: the given data, or a reward note if it is empty.
pub open spec fn reward_memo(to: Seq<char>, data: Seq<char>) -> Seq<char> {
    if data.len() == 0 {
        "Reward to '"@ + to + "'"@
    } else {
        data
    }
}

/// A coinbase paying `SUBSIDY` to `to`, before its id is set.
pub open spec fn coinbase_body(to: Seq<char>, data: Seq<char>) -> TxModel {
    TxModel {
        id: Seq::empty(),
        vin: seq![
            InputModel {
                txid: Seq::empty(),
                vout: -1i32,
                signature: Seq::empty(),
                pub_key: encode_utf8(reward_memo(to, data)),
            },
        ],
        vout: seq![OutputModel { value: SUBSIDY, key: to }],
    }
}

/// A coinbase has exactly one input, which refers to no transaction and to position -1.
pub open spec fn is_coinbase_tx(t: TxModel) -> bool {
    t.vin.len() == 1 && t.vin[0].txid.len() == 0 && t.vin[0].vout == -1
}

/// The copy of a transaction that input `i` signs: no id, no signatures,
/// and no public keys but input `i`'s, which holds the locking key of the
/// output it spends.
pub open spec fn trimmed(t: TxModel, i: int, key: Seq<char>) -> TxModel {
    TxModel {
        id: Seq::empty(),
        vin: Seq::new(
            t.vin.len(),
            |j: int|
                InputModel {
                    txid: t.vin[j].txid,
                    vout: t.vin[j].vout,
                    signature: Seq::empty(),
                    pub_key: if j == i {
                        encode_utf8(key)
                    } else {
                        Seq::empty()
                    },
                },
        ),
        vout: t.vout,
    }
}

/// The digest that input `i` signs, given the locking key of the output it spends.
pub open spec fn signing_digest(t: TxModel, i: int, key: Seq<char>) -> Seq<u8> {
    sha256_of(enc_tx(trimmed(t, i, key)))
}

/// `k` is the first position in `txs` of a transaction with the given id.
pub open spec fn first_with_id(txs: Seq<TxModel>, id: Seq<char>, k: int) -> bool {
    0 <= k < txs.len() && txs[k].id == id && forall|j: int| 0 <= j < k ==> txs[j].id != id
}

/// The output that an input spends, looked up among `txs` (the first
/// transaction with the input's id counts).
pub open spec fn referenced_output(txs: Seq<TxModel>, input: InputModel) -> Option<OutputModel> {
    if exists|k: int| first_with_id(txs, input.txid, k) {
        let k = choose|k: int| first_with_id(txs, input.txid, k);
        if 0 <= input.vout < txs[k].vout.len() {
            Some(txs[k].vout[input.vout as int])
        } else {
            None
        }
    } else {
        None
    }
}

/// Every input of `t` spends an output that can be found among `txs`.
pub open spec fn all_referenced(t: TxModel, txs: Seq<TxModel>) -> bool {
    forall|i: int| 0 <= i < t.vin.len() ==> (#[trigger] referenced_output(txs, t.vin[i])) is Some
}

/// The transaction after each input `i` was signed with `secret_key` over its digest.
pub open spec fn signed(t: TxModel, txs: Seq<TxModel>, secret_key: Seq<u8>) -> TxModel {
    TxModel {
        id: t.id,
        vin: Seq::new(
            t.vin.len(),
            |i: int|
                InputModel {
                    txid: t.vin[i].txid,
                    vout: t.vin[i].vout,
                    signature: ed25519_signature_of(
                        signing_digest(t, i, referenced_output(txs, t.vin[i]).unwrap().key),
                        secret_key,
                    ),
                    pub_key: t.vin[i].pub_key,
                },
        ),
        vout: t.vout,
    }
}

/// Input `i` of `t` may spend `o`: its public key belongs to `o`'s address,
/// and its signature over its digest checks out under that key.
pub open spec fn input_verifies(t: TxModel, i: int, o: OutputModel) -> bool {
    &&& address_of(t.vin[i].pub_key) == o.key
    &&& t.vin[i].pub_key.len() >= 32
    &&& t.vin[i].signature.len() >= 64
    &&& ed25519_accepts(signing_digest(t, i, o.key), t.vin[i].pub_key, t.vin[i].signature)
}

/// Whether every input of a transaction that has inputs may spend what it refers to.
pub open spec fn all_inputs_verify(t: TxModel, txs: Seq<TxModel>) -> bool {
    &&& t.vin.len() > 0
    &&& forall|i: int|
        0 <= i < t.vin.len() ==> #[trigger] input_verifies(
            t,
            i,
            referenced_output(txs, t.vin[i]).unwrap(),
        )
}

/// A coinbase made for `to` is a coinbase, and its one output holds
/// `SUBSIDY` locked to `to`.
pub proof fn lemma_coinbase_issuance(to: Seq<char>, data: Seq<char>)
    ensures
        is_coinbase_tx(with_id(coinbase_body(to, data))),
        with_id(coinbase_body(to, data)).vout == seq![OutputModel { value: SUBSIDY, key: to }],
{
}

fn copy_outputs(v: &Vec<TXOutput>) -> (r: Vec<TXOutput>)
    ensures
        r@.map_values(|o: TXOutput| o@) == v@.map_values(|o: TXOutput| o@),
{
    let r = v.clone();
    proof {
        assert forall|i: int| 0 <= i < r@.len() implies r@[i]@ == v@[i]@ by {
            assert(cloned::<TXOutput>(v[i], r[i]));
        }
        assert(r@.map_values(|o: TXOutput| o@) =~= v@.map_values(|o: TXOutput| o@));
    }
    r
}

/// The index of the first transaction in `txs` with the given id.
pub fn find_tx_index(txs: &Vec<Transaction>, id: &str) -> (r: Option<usize>)
    ensures
        match r {
            Some(k) => first_with_id(models(txs@), id@, k as int),
            None => !exists|k: int| first_with_id(models(txs@), id@, k),
        },
{
    let mut i: usize = 0;
    while i < txs.len()
        invariant
            i <= txs@.len(),
            forall|j: int| 0 <= j < i ==> models(txs@)[j].id != id@,
        decreases txs@.len() - i,
    {
        if same_text(txs[i].id.as_str(), id) {
            return Some(i);
        }
        i = i + 1;
    }
    None
}

/// Where the output that an input spends stands among `txs`: the
/// transaction's index and the output's position.
pub fn locate_referenced(txs: &Vec<Transaction>, input: &TXInput) -> (r: Option<(usize, usize)>)
    ensures
        match r {
            Some((k, o)) => {
                &&& k < txs@.len()
                &&& o < txs@[k as int].vout@.len()
                &&& referenced_output(models(txs@), input@) == Some(txs@[k as int].vout@[o as int]@)
            },
            None => referenced_output(models(txs@), input@) is None,
        },
{
    match find_tx_index(txs, input.txid.as_str()) {
        Some(k) => {
            proof {
                let m = models(txs@);
                let c = choose|c: int| first_with_id(m, input@.txid, c);
                assert(c == k as int) by {
                    if c < k {
                        assert(m[c].id != input@.txid);
                    } else if c > k {
                        assert(m[k as int].id != input@.txid);
                    }
                }
            }
            if input.vout >= 0 && (input.vout as usize) < txs[k].vout.len() {
                Some((k, input.vout as usize))
            } else {
                None
            }
        },
        None => None,
    }
}

impl Transaction {
    /// The transaction with its id emptied and its signatures stripped.
    fn unsigned_copy(&self) -> (r: Transaction)
        ensures
            r@ == unsigned(self@),
    {
        let mut vin: Vec<TXInput> = Vec::new();
        let mut j: usize = 0;
        while j < self.vin.len()
            invariant
                j <= self.vin@.len(),
                vin@.len() == j,
                forall|k: int| 0 <= k < j ==> #[trigger] vin@[k]@ == unsigned(self@).vin[k],
            decreases self.vin@.len() - j,
        {
            let input = &self.vin[j];
            vin.push(
                TXInput {
                    txid: input.txid.clone(),
                    vout: input.vout,
                    signature: Vec::new(),
                    pub_key: input.pub_key.clone(),
                },
            );
            j = j + 1;
        }
        let r = Transaction { id: String::new(), vin, vout: copy_outputs(&self.vout) };
        proof {
            assert(r@.vin =~= unsigned(self@).vin);
            assert(r@.id =~= unsigned(self@).id);
        }
        r
    }

    /// The copy that input `i` signs, with `key` as that input's public key.
    fn trimmed_copy(&self, i: usize, key: &String) -> (r: Transaction)
        ensures
            r@ == trimmed(self@, i as int, key@),
    {
        let mut vin: Vec<TXInput> = Vec::new();
        let mut j: usize = 0;
        while j < self.vin.len()
            invariant
                j <= self.vin@.len(),
                vin@.len() == j,
                forall|k: int| 0 <= k < j ==> #[trigger] vin@[k]@ == trimmed(self@, i as int, key@).vin[k],
            decreases self.vin@.len() - j,
        {
            let input = &self.vin[j];
            let pub_key = if j == i {
                key.as_str().as_bytes_vec()
            } else {
                Vec::new()
            };
            vin.push(
                TXInput { txid: input.txid.clone(), vout: input.vout, signature: Vec::new(), pub_key },
            );
            j = j + 1;
        }
        let r = Transaction { id: String::new(), vin, vout: copy_outputs(&self.vout) };
        proof {
            assert(r@.vin =~= trimmed(self@, i as int, key@).vin);
            assert(r@.id =~= trimmed(self@, i as int, key@).id);
        }
        r
    }

    /// The locking key of the output that each input spends, found in
    /// `txs`; `None` when some input's output cannot be found.
    fn referenced_keys(&self, txs: &Vec<Transaction>) -> (r: Option<Vec<String>>)
        ensures
            match r {
                Some(keys) => {
                    &&& all_referenced(self@, models(txs@))
                    &&& keys@.len() == self.vin@.len()
                    &&& forall|k: int|
                        0 <= k < self.vin@.len() ==> #[trigger] keys@[k]@ == referenced_output(
                            models(txs@),
                            self@.vin[k],
                        ).unwrap().key
                },
                None => !all_referenced(self@, models(txs@)),
            },
    {
        let ghost prev = models(txs@);
        let mut keys: Vec<String> = Vec::new();
        let mut i: usize = 0;
        while i < self.vin.len()
            invariant
                i <= self.vin@.len(),
                keys@.len() == i,
                prev == models(txs@),
                forall|k: int| 0 <= k < i ==> {
                    &&& #[trigger] referenced_output(prev, self@.vin[k]) is Some
                    &&& keys@[k]@ == referenced_output(prev, self@.vin[k]).unwrap().key
                },
            decreases self.vin@.len() - i,
        {
            match locate_referenced(txs, &self.vin[i]) {
                Some((k, o)) => {
                    keys.push(txs[k].vout[o].script_pub_key.clone());
                },
                None => {
                    assert(referenced_output(prev, self@.vin[i as int]) is None);
                    return None;
                },
            }
            i = i + 1;
        }
        Some(keys)
    }

    /// The digest of the transaction's unsigned content, as hex text.
    pub fn hash(&self) -> (r: String)
        ensures
            r@ == id_of(self@),
            r@.len() == 64,
    {
        let bytes = encode_transaction(&self.unsigned_copy());
        sha256_hex(bytes.as_slice())
    }

    /// Sets the id to the digest of the unsigned content.
    pub fn set_id(&mut self)
        ensures
            final(self)@ == with_id(old(self)@),
            final(self)@.id.len() == 64,
    {
        self.id = self.hash();
    }

    /// A coinbase transaction: one input carrying `data` (or a reward note
    /// when `data` is empty) and one output of `SUBSIDY` locked to `to`.
    pub fn new_coinbase(to: String, data: String) -> (r: Transaction)
        ensures
            r@ == with_id(coinbase_body(to@, data@)),
            r@.id.len() == 64,
    {
        let memo = if data.as_str().is_empty() {
            String::from_str("Reward to '").concat(to.as_str()).concat("'")
        } else {
            data
        };
        let mut tx = Transaction {
            id: String::new(),
            vin: vec![
                TXInput {
                    txid: String::new(),
                    vout: -1,
                    signature: Vec::new(),
                    pub_key: memo.as_str().as_bytes_vec(),
                },
            ],
            vout: vec![TXOutput { value: SUBSIDY, script_pub_key: to }],
        };
        proof {
            assert(tx@.vin =~= coinbase_body(to@, data@).vin);
            assert(tx@.vout =~= coinbase_body(to@, data@).vout);
            assert(tx@ == coinbase_body(to@, data@));
        }
        tx.set_id();
        tx
    }

    /// Whether this is a coinbase transaction.
    pub fn is_coinbase(&self) -> (r: bool)
        ensures
            r == is_coinbase_tx(self@),
    {
        self.vin.len() == 1 && self.vin[0].txid.as_str().is_empty() && self.vin[0].vout == -1
    }

    /// Signs every input with `private_key`, after finding in `prev_txs` the
    /// output that each one spends. A coinbase is left as it is; when an
    /// input's output cannot be found nothing is changed.
    pub fn sign(&mut self, private_key: &[u8], prev_txs: &Vec<Transaction>) -> (r: Result<(), LedgerError>)
        requires
            private_key@.len() >= 64,
        ensures
            is_coinbase_tx(old(self)@) ==> r is Ok && final(self)@ == old(self)@,
            !is_coinbase_tx(old(self)@) ==> (r is Ok <==> all_referenced(old(self)@, models(prev_txs@))),
            r is Err ==> r == Err::<(), LedgerError>(LedgerError::MissingReferencedTransaction)
                && final(self)@ == old(self)@,
            !is_coinbase_tx(old(self)@) && r is Ok ==> final(self)@ == signed(
                old(self)@,
                models(prev_txs@),
                private_key@,
            ),
    {
        if self.is_coinbase() {
            return Ok(());
        }
        let ghost prev = models(prev_txs@);
        let keys = match self.referenced_keys(prev_txs) {
            Some(keys) => keys,
            None => return Err(LedgerError::MissingReferencedTransaction),
        };
        let ghost before = self@;
        let mut vin: Vec<TXInput> = Vec::new();
        let mut j: usize = 0;
        while j < self.vin.len()
            invariant
                j <= self.vin@.len(),
                vin@.len() == j,
                keys@.len() == self.vin@.len(),
                before == self@,
                private_key@.len() >= 64,
                forall|k: int| 0 <= k < self.vin@.len() ==> {
                    &&& #[trigger] referenced_output(prev, self@.vin[k]) is Some
                    &&& keys@[k]@ == referenced_output(prev, self@.vin[k]).unwrap().key
                },
                forall|k: int| 0 <= k < j ==> #[trigger] vin@[k]@ == signed(before, prev, private_key@).vin[k],
            decreases self.vin@.len() - j,
        {
            let copy = self.trimmed_copy(j, &keys[j]);
            let digest = sha256(encode_transaction(&copy).as_slice());
            let input = &self.vin[j];
            vin.push(
                TXInput {
                    txid: input.txid.clone(),
                    vout: input.vout,
                    signature: ed25519_sign(digest.as_slice(), private_key),
                    pub_key: input.pub_key.clone(),
                },
            );
            j = j + 1;
        }
        self.vin = vin;
        proof {
            assert(self@.vin =~= signed(before, prev, private_key@).vin);
        }
        Ok(())
    }

    /// Checks every input's signature against the output it spends, found in
    /// `prev_txs`. A coinbase verifies without any check; a transaction
    /// without inputs does not verify.
    pub fn verify(&self, prev_txs: &Vec<Transaction>) -> (r: Result<bool, LedgerError>)
        ensures
            is_coinbase_tx(self@) ==> r == Ok::<bool, LedgerError>(true),
            !is_coinbase_tx(self@) ==> (r is Ok <==> all_referenced(self@, models(prev_txs@))),
            r is Err ==> r == Err::<bool, LedgerError>(LedgerError::MissingReferencedTransaction),
            !is_coinbase_tx(self@) && r is Ok ==> r == Ok::<bool, LedgerError>(
                all_inputs_verify(self@, models(prev_txs@)),
            ),
    {
        if self.is_coinbase() {
            return Ok(true);
        }
        let ghost prev = models(prev_txs@);
        let keys = match self.referenced_keys(prev_txs) {
            Some(keys) => keys,
            None => return Err(LedgerError::MissingReferencedTransaction),
        };
        if self.vin.len() == 0 {
            return Ok(false);
        }
        let mut j: usize = 0;
        while j < self.vin.len()
            invariant
                j <= self.vin@.len(),
                self.vin@.len() > 0,
                prev == models(prev_txs@),
                !is_coinbase_tx(self@),
                keys@.len() == self.vin@.len(),
                forall|k: int| 0 <= k < self.vin@.len() ==> {
                    &&& #[trigger] referenced_output(prev, self@.vin[k]) is Some
                    &&& keys@[k]@ == referenced_output(prev, self@.vin[k]).unwrap().key
                },
                forall|k: int| 0 <= k < j ==> #[trigger] input_verifies(
                    self@,
                    k,
                    referenced_output(prev, self@.vin[k]).unwrap(),
                ),
            decreases self.vin@.len() - j,
        {
            let input = &self.vin[j];
            let owner = address_from_public_key(input.pub_key.as_slice());
            if !same_text(owner.as_str(), keys[j].as_str()) || input.pub_key.len() < 32
                || input.signature.len() < 64 {
                assert(!input_verifies(self@, j as int, referenced_output(prev, self@.vin[j as int]).unwrap()));
                return Ok(false);
            }
            let copy = self.trimmed_copy(j, &keys[j]);
            let digest = sha256(encode_transaction(&copy).as_slice());
            if !ed25519_verify(digest.as_slice(), input.pub_key.as_slice(), input.signature.as_slice()) {
                assert(!input_verifies(self@, j as int, referenced_output(prev, self@.vin[j as int]).unwrap()));
                return Ok(false);
            }
            j = j + 1;
        }
        Ok(true)
    }
}

impl TXInput {
    /// Whether the input's public key belongs to the given address.
    pub fn can_unlock_output_with(&self, unlocking_data: &str) -> (r: bool)
        ensures
            r == (address_of(self.pub_key@) == unlocking_data@),
    {
        let owner = address_from_public_key(self.pub_key.as_slice());
        same_text(owner.as_str(), unlocking_data)
    }
}

impl TXOutput {
    /// Whether the output is locked to the given address.
    pub fn can_be_unlock_with(&self, unlocking_data: &str) -> (r: bool)
        ensures
            r == (self.script_pub_key@ == unlocking_data@),
    {
        same_text(self.script_pub_key.as_str(), unlocking_data)
    }
}

} // verus!
