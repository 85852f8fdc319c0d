//! Blocks: a batch of transactions whose hash, found by a nonce search,
//! meets the difficulty target and links to the previous block.

use crate::codec::{
    block_fits, decoded_block, enc_block, lemma_block_round_trip, pow256, tx_fits, enc_bytes, enc_str, enc_txs, enc_u64, encode_transaction, le_bytes,
    put_bytes, put_le, put_raw, put_str, read_str, read_transactions, read_u32, read_u64, read_uint,
    same_text,
};
use crate::errors::LedgerError;
use crate::hashing::{hex_of, merkle_root, merkle_root_of, sha256_hex, sha256_of};
use crate::transaction::{Transaction, TxModel, models};
use vstd::prelude::*;
use vstd::string::*;
use vstd::utf8::*;

verus! {

/// How many leading hex digits of a block's hash must be `'0'`.
pub const TARGET_HEX: usize = 4;

/// A mined block.
#[derive(Debug)]
pub struct Block {
    nonce: u32,
    height: usize,
    timestamp: u128,
    hash: String,
    prev_block_hash: String,
    transactions: Vec<Transaction>,
}

/// What a block holds, as plain values.
pub struct BlockModel {
    pub nonce: u32,
    pub height: usize,
    pub timestamp: u128,
    pub hash: Seq<char>,
    pub prev_hash: Seq<char>,
    pub txs: Seq<TxModel>,
}

impl View for Block {
    type V = BlockModel;

    closed spec fn view(&self) -> BlockModel {
        BlockModel {
            nonce: self.nonce,
            height: self.height,
            timestamp: self.timestamp,
            hash: self.hash@,
            prev_hash: self.prev_block_hash@,
            txs: models(self.transactions@),
        }
    }
}

impl Block {
    /// Every block is a mined block, with a 64-digit hash.
    #[verifier::type_invariant]
    spec fn inv(self) -> bool {
        is_mined(self@) && self@.hash.len() == 64
    }
}

impl Clone for Block {
    fn clone(&self) -> (r: Self)
        ensures
            r@ == self@,
    {
        proof {
            use_type_invariant(self);
        }
        let transactions = self.transactions.clone();
        proof {
            assert forall|i: int| 0 <= i < transactions@.len() implies transactions@[i]@
                == self.transactions@[i]@ by {
                assert(cloned::<Transaction>(self.transactions[i], transactions[i]));
            }
            assert(models(transactions@) =~= models(self.transactions@));
        }
        Block {
            nonce: self.nonce,
            height: self.height,
            timestamp: self.timestamp,
            hash: self.hash.clone(),
            prev_block_hash: self.prev_block_hash.clone(),
            transactions,
        }
    }
}

/// The Merkle leaves of a block: each transaction's id, as UTF-8 bytes.
pub open spec fn merkle_leaves(txs: Seq<TxModel>) -> Seq<Seq<u8>> {
    Seq::new(txs.len(), |i: int| encode_utf8(txs[i].id))
}

/// The bytes that a block's hash digests.
pub open spec fn hash_preimage(prev_hash: Seq<char>, root: Seq<u8>, timestamp: u128, nonce: u32) -> Seq<u8> {
    enc_str(prev_hash) + enc_bytes(root) + le_bytes(timestamp as nat, 16) + enc_u64(TARGET_HEX as nat)
        + le_bytes(nonce as nat, 4)
}

/// The hash of a block with these contents and this nonce.
pub open spec fn block_hash(prev_hash: Seq<char>, txs: Seq<TxModel>, timestamp: u128, nonce: u32) -> Seq<char> {
    hex_of(sha256_of(hash_preimage(prev_hash, merkle_root_of(merkle_leaves(txs)), timestamp, nonce)))
}

/// The difficulty predicate: the first `TARGET_HEX` characters are `'0'`.
pub open spec fn meets_target(h: Seq<char>) -> bool {
    h.len() >= TARGET_HEX && forall|i: int| 0 <= i < TARGET_HEX ==> h[i] == '0'
}

/// Whether `nonce` solves the block with these contents.
pub open spec fn solves(prev_hash: Seq<char>, txs: Seq<TxModel>, timestamp: u128, nonce: u32) -> bool {
    meets_target(block_hash(prev_hash, txs, timestamp, nonce))
}

/// A block that left mining: its hash is the hash of its contents and meets the target.
pub open spec fn is_mined(b: BlockModel) -> bool {
    b.hash == block_hash(b.prev_hash, b.txs, b.timestamp, b.nonce) && meets_target(b.hash)
}

/// The result of mining these contents at this time: the block with the
/// least solving nonce, or `NonceSpaceExhausted` if no nonce solves it.
pub open spec fn mined_block_ok(
    r: Result<Block, LedgerError>,
    txs: Seq<TxModel>,
    prev_hash: Seq<char>,
    height: usize,
    timestamp: u128,
) -> bool {
    match r {
        Ok(b) => {
            &&& is_mined(b@)
            &&& b@.hash.len() == 64
            &&& b@.txs == txs
            &&& b@.prev_hash == prev_hash
            &&& b@.height == height
            &&& b@.timestamp == timestamp
            &&& forall|n: u32| n < b@.nonce ==> !solves(prev_hash, txs, timestamp, n)
        },
        Err(e) => {
            &&& e == LedgerError::NonceSpaceExhausted
            &&& forall|n: u32| !solves(prev_hash, txs, timestamp, n)
        },
    }
}

/// Relies on `std::time::SystemTime::now` and `duration_since(UNIX_EPOCH)`:
/// milliseconds since the epoch, or `None` when the clock is before it.
#[verifier::external_body]
fn now_millis() -> (r: Option<u128>) {
    match std::time::SystemTime::now().duration_since(std::time::SystemTime::UNIX_EPOCH) {
        Ok(d) => Some(d.as_millis()),
        Err(_) => None,
    }
}

/// Whether the first `TARGET_HEX` characters of `h` are `'0'`.
fn hex_meets_target(h: &String) -> (r: bool)
    ensures
        r == meets_target(h@),
{
    let s = h.as_str();
    if s.unicode_len() < TARGET_HEX {
        return false;
    }
    let mut i: usize = 0;
    while i < TARGET_HEX
        invariant
            i <= TARGET_HEX,
            s@.len() >= TARGET_HEX,
            s@ == h@,
            forall|k: int| 0 <= k < i ==> s@[k] == '0',
        decreases TARGET_HEX - i,
    {
        if s.get_char(i) != '0' {
            return false;
        }
        i = i + 1;
    }
    true
}

/// The Merkle root over the transactions' ids.
pub fn hash_transactions(transactions: &Vec<Transaction>) -> (r: Vec<u8>)
    ensures
        r@ == merkle_root_of(merkle_leaves(models(transactions@))),
{
    let mut leaves: Vec<Vec<u8>> = Vec::new();
    let mut i: usize = 0;
    while i < transactions.len()
        invariant
            i <= transactions@.len(),
            leaves@.len() == i,
            forall|k: int| 0 <= k < i ==> #[trigger] leaves@[k]@ == merkle_leaves(models(transactions@))[k],
        decreases transactions@.len() - i,
    {
        leaves.push(transactions[i].id.as_str().as_bytes_vec());
        i = i + 1;
    }
    proof {
        assert(leaves@.map_values(|l: Vec<u8>| l@) =~= merkle_leaves(models(transactions@)));
    }
    merkle_root(&leaves)
}

/// The hash of a block with these contents and this nonce.
fn block_hash_of(prev_hash: &String, transactions: &Vec<Transaction>, timestamp: u128, nonce: u32) -> (r:
    String)
    ensures
        r@ == block_hash(prev_hash@, models(transactions@), timestamp, nonce),
        r@.len() == 64,
{
    let root = hash_transactions(transactions);
    sha256_hex(prepare_hash_data(prev_hash, &root, timestamp, nonce).as_slice())
}

/// The bytes that the hash of a block digests.
fn prepare_hash_data(prev_hash: &String, root: &Vec<u8>, timestamp: u128, nonce: u32) -> (r: Vec<u8>)
    ensures
        r@ == hash_preimage(prev_hash@, root@, timestamp, nonce),
{
    let mut out: Vec<u8> = Vec::new();
    put_str(&mut out, prev_hash.as_str());
    put_bytes(&mut out, root.as_slice());
    put_le(&mut out, timestamp, 16);
    put_le(&mut out, TARGET_HEX as u128, 8);
    put_le(&mut out, nonce as u128, 4);
    proof {
        assert(out@ =~= hash_preimage(prev_hash@, root@, timestamp, nonce));
    }
    out
}

impl Block {
    /// Mines a block at a given time: tries nonces from 0 upwards until the
    /// hash meets the target.
    pub fn mine(data: Vec<Transaction>, prev_block_hash: String, height: usize, timestamp: u128) -> (r:
        Result<Block, LedgerError>)
        ensures
            mined_block_ok(r, models(data@), prev_block_hash@, height, timestamp),
    {
        let root = hash_transactions(&data);
        let mut n: u64 = 0;
        while n <= u32::MAX as u64
            invariant
                root@ == merkle_root_of(merkle_leaves(models(data@))),
                forall|m: u32| (m as u64) < n ==> !solves(prev_block_hash@, models(data@), timestamp, m),
            decreases u32::MAX as u64 + 1 - n,
        {
            let nonce = n as u32;
            let candidate = sha256_hex(prepare_hash_data(&prev_block_hash, &root, timestamp, nonce).as_slice());
            if hex_meets_target(&candidate) {
                let b = Block {
                    nonce,
                    height,
                    timestamp,
                    hash: candidate,
                    prev_block_hash,
                    transactions: data,
                };
                return Ok(b);
            }
            n = n + 1;
        }
        Err(LedgerError::NonceSpaceExhausted)
    }

    /// Mines a block stamped with the current time.
    pub fn new_block(data: Vec<Transaction>, prev_block_hash: String, height: usize) -> (r: Result<
        Block,
        LedgerError,
    >)
        ensures
            match r {
                Ok(b) => {
                    &&& is_mined(b@)
                    &&& b@.hash.len() == 64
                    &&& b@.txs == models(data@)
                    &&& b@.prev_hash == prev_block_hash@
                    &&& b@.height == height
                    &&& forall|n: u32|
                        n < b@.nonce ==> !solves(prev_block_hash@, models(data@), b@.timestamp, n)
                },
                Err(e) => e == LedgerError::ClockError || e == LedgerError::NonceSpaceExhausted,
            },
    {
        match now_millis() {
            Some(timestamp) => Block::mine(data, prev_block_hash, height, timestamp),
            None => Err(LedgerError::ClockError),
        }
    }

    /// The first block of a chain: the coinbase alone, no previous hash, height 0.
    pub fn new_genesis_block(coinbase: Transaction) -> (r: Result<Block, LedgerError>)
        ensures
            match r {
                Ok(b) => {
                    &&& is_mined(b@)
                    &&& b@.hash.len() == 64
                    &&& b@.txs == seq![coinbase@]
                    &&& b@.prev_hash == Seq::<char>::empty()
                    &&& b@.height == 0
                },
                Err(e) => e == LedgerError::ClockError || e == LedgerError::NonceSpaceExhausted,
            },
    {
        let ghost c = coinbase@;
        let data = vec![coinbase];
        proof {
            assert(models(data@) =~= seq![c]);
        }
        Block::new_block(data, String::new(), 0)
    }

    /// Whether the hash recomputed from the block's contents meets the target.
    /// Every block is mined, so this holds of each.
    pub fn validate(&self) -> (r: bool)
        ensures
            r == solves(self@.prev_hash, self@.txs, self@.timestamp, self@.nonce),
            r,
    {
        proof {
            use_type_invariant(self);
        }
        let h = block_hash_of(&self.prev_block_hash, &self.transactions, self.timestamp, self.nonce);
        hex_meets_target(&h)
    }

    /// A block rebuilt from stored parts, kept only if it is a mined block.
    pub fn restore(
        nonce: u32,
        height: usize,
        timestamp: u128,
        hash: String,
        prev_block_hash: String,
        transactions: Vec<Transaction>,
    ) -> (r: Option<Block>)
        ensures
            match r {
                Some(b) => {
                    &&& is_mined(b@)
                    &&& b@.nonce == nonce
                    &&& b@.height == height
                    &&& b@.timestamp == timestamp
                    &&& b@.hash == hash@
                    &&& b@.prev_hash == prev_block_hash@
                    &&& b@.txs == models(transactions@)
                },
                None => !is_mined(
                    BlockModel {
                        nonce,
                        height,
                        timestamp,
                        hash: hash@,
                        prev_hash: prev_block_hash@,
                        txs: models(transactions@),
                    },
                ),
            },
    {
        let h = block_hash_of(&prev_block_hash, &transactions, timestamp, nonce);
        if same_text(h.as_str(), hash.as_str()) && hex_meets_target(&hash) {
            Some(Block { nonce, height, timestamp, hash, prev_block_hash, transactions })
        } else {
            None
        }
    }

    /// The stored encoding of the block.
    pub fn encode(&self) -> (r: Vec<u8>)
        ensures
            r@ == enc_block(self@),
            block_fits(self@),
            decoded_block(r@) == Some(self@),
    {
        let mut out: Vec<u8> = Vec::new();
        put_le(&mut out, self.nonce as u128, 4);
        put_le(&mut out, self.height as u128, 8);
        put_le(&mut out, self.timestamp, 16);
        put_str(&mut out, self.hash.as_str());
        put_str(&mut out, self.prev_block_hash.as_str());
        put_le(&mut out, self.transactions.len() as u128, 8);
        let ghost head = out@;
        let ghost txs = models(self.transactions@);
        let mut i: usize = 0;
        while i < self.transactions.len()
            invariant
                i <= self.transactions@.len(),
                txs == models(self.transactions@),
                out@ == head + enc_txs(txs.take(i as int)),
                forall|k: int| 0 <= k < i ==> tx_fits(#[trigger] txs[k]),
            decreases self.transactions@.len() - i,
        {
            let e = encode_transaction(&self.transactions[i]);
            put_raw(&mut out, e.as_slice());
            proof {
                assert(txs.take(i + 1).drop_last() =~= txs.take(i as int));
                assert(txs.take(i + 1).last() == txs[i as int]);
                assert(out@ =~= head + enc_txs(txs.take(i + 1)));
            }
            i = i + 1;
        }
        proof {
            assert(txs.take(self.transactions@.len() as int) =~= txs);
            assert(out@ =~= enc_block(self@));
            assert(txs.len() == self.transactions@.len());
            assert(pow256(8) == 0x1_0000_0000_0000_0000) by {
                reveal_with_fuel(pow256, 9);
            }
            lemma_block_round_trip(self@);
        }
        out
    }

    /// The mined block that `bytes` encode; `CorruptData` unless they hold
    /// exactly one encoded block whose hash is the hash of its contents and
    /// meets the target.
    pub fn decode(bytes: &[u8]) -> (r: Result<Block, LedgerError>)
        ensures
            match r {
                Ok(b) => decoded_block(bytes@) == Some(b@) && is_mined(b@),
                Err(e) => e == LedgerError::CorruptData && (decoded_block(bytes@) is None || !is_mined(
                    decoded_block(bytes@).unwrap(),
                )),
            },
    {
        let (nonce, pos1) = match read_u32(bytes, 0) {
            Some(x) => x,
            None => return Err(LedgerError::CorruptData),
        };
        let (height, pos2) = match read_u64(bytes, pos1) {
            Some(x) => x,
            None => return Err(LedgerError::CorruptData),
        };
        let (timestamp, pos3) = match read_uint(bytes, pos2, 16) {
            Some(x) => x,
            None => return Err(LedgerError::CorruptData),
        };
        let (hash, pos4) = match read_str(bytes, pos3) {
            Some(x) => x,
            None => return Err(LedgerError::CorruptData),
        };
        let (prev_block_hash, pos5) = match read_str(bytes, pos4) {
            Some(x) => x,
            None => return Err(LedgerError::CorruptData),
        };
        let (n, pos6) = match read_uint(bytes, pos5, 8) {
            Some(x) => x,
            None => return Err(LedgerError::CorruptData),
        };
        let (transactions, pos7) = match read_transactions(bytes, pos6, n) {
            Some(x) => x,
            None => return Err(LedgerError::CorruptData),
        };
        if height > usize::MAX as u64 || pos7 != bytes.len() {
            return Err(LedgerError::CorruptData);
        }
        match Block::restore(nonce, height as usize, timestamp, hash, prev_block_hash, transactions) {
            Some(b) => Ok(b),
            None => Err(LedgerError::CorruptData),
        }
    }

    /// The block's hash; every block is mined, so it is the hash of the
    /// block's contents, 64 hex digits long, and meets the target.
    pub fn get_hash(&self) -> (r: String)
        ensures
            r@ == self@.hash,
            r@.len() == 64,
            is_mined(self@),
    {
        proof {
            use_type_invariant(self);
        }
        self.hash.clone()
    }

    pub fn get_prev_hash(&self) -> (r: String)
        ensures
            r@ == self@.prev_hash,
    {
        self.prev_block_hash.clone()
    }

    pub fn get_transaction(&self) -> (r: &Vec<Transaction>)
        ensures
            models(r@) == self@.txs,
    {
        &self.transactions
    }

    pub fn get_height(&self) -> (r: usize)
        ensures
            r == self@.height,
    {
        self.height
    }

    pub fn get_nonce(&self) -> (r: u32)
        ensures
            r == self@.nonce,
    {
        self.nonce
    }

    pub fn get_timestamp(&self) -> (r: u128)
        ensures
            r == self@.timestamp,
    {
        self.timestamp
    }
}

} // verus!
