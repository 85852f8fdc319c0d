//! The chain store: blocks kept by their hash, a pointer to the tip, and
//! the walk from the tip back to the genesis block along `prev_hash` links.

use crate::block::{Block, BlockModel, is_mined};
use crate::errors::LedgerError;
use crate::transaction::{
    Transaction, TxModel, all_inputs_verify, all_referenced, coinbase_body, find_tx_index,
    first_with_id, is_coinbase_tx, models, signed, with_id,
};
use crate::utxoset::{
    Utxo, UtxoModel, entry_set, has_key_in, keys_unique, spent_by_any, spent_in, unspent_outputs,
    unspent_set, utxo_models,
};
use crate::codec::same_text;
use vstd::prelude::*;
use vstd::string::*;

verus! {

/// The memo of the genesis block's coinbase.
pub const GENESIS_COINBASE_DATA: &'static str = "The Times 03/Jan/2009 Chancellor on brink of second bailout for banks";

/// The chain store: every stored block, and the hash of the tip.
#[derive(Debug)]
pub struct Blockchain {
    blocks: Vec<Block>,
    current_hash: String,
}

/// A walk from some block back towards the genesis block.
pub struct BlockchainIter<'a> {
    current_hash: String,
    fuel: usize,
    bc: &'a Blockchain,
}

/// `k` is the first position in `store` of a block with hash `h`.
pub open spec fn first_block_with_hash(store: Seq<BlockModel>, h: Seq<char>, k: int) -> bool {
    0 <= k < store.len() && store[k].hash == h && forall|j: int| 0 <= j < k ==> store[j].hash != h
}

/// Where the block with hash `h` is kept, if it is.
pub open spec fn find_block(store: Seq<BlockModel>, h: Seq<char>) -> Option<int> {
    if exists|k: int| first_block_with_hash(store, h, k) {
        Some(choose|k: int| first_block_with_hash(store, h, k))
    } else {
        None
    }
}

/// The positions visited by following `prev_hash` links from the block
/// with hash `h`, for at most `fuel` blocks; the walk ends at the first hash
/// that is not found.
pub open spec fn walk(store: Seq<BlockModel>, h: Seq<char>, fuel: nat) -> Seq<int>
    decreases fuel,
{
    if fuel == 0 {
        Seq::empty()
    } else {
        match find_block(store, h) {
            Some(k) => seq![k] + walk(store, store[k].prev_hash, (fuel - 1) as nat),
            None => Seq::empty(),
        }
    }
}

/// The chain's blocks from the tip back to the genesis block. A store
/// holds each block of its chain once, so no walk needs more steps than
/// the store has blocks.
pub open spec fn chain_from_tip(store: Seq<BlockModel>, tip: Seq<char>) -> Seq<BlockModel> {
    walk(store, tip, store.len()).map_values(|k: int| store[k])
}

/// The chain's blocks from the genesis block up to the tip.
pub open spec fn history_of(store: Seq<BlockModel>, tip: Seq<char>) -> Seq<BlockModel> {
    chain_from_tip(store, tip).reverse()
}

/// Whether `t` has an output locked to `address` that no transaction of `all` spends.
pub open spec fn has_unspent_for(all: Seq<TxModel>, t: TxModel, address: Seq<char>) -> bool {
    exists|i: int| 0 <= i < t.vout.len() && #[trigger] t.vout[i].key == address && !spent_in(all, t.id, i)
}

/// The first `upto` transactions of `all` that hold an unspent output locked to `address`.
pub open spec fn txs_with_unspent(all: Seq<TxModel>, upto: int, address: Seq<char>) -> Seq<TxModel>
    decreases upto,
{
    if upto <= 0 {
        Seq::empty()
    } else if has_unspent_for(all, all[upto - 1], address) {
        txs_with_unspent(all, upto - 1, address).push(all[upto - 1])
    } else {
        txs_with_unspent(all, upto - 1, address)
    }
}

/// Whether `h` is already in use in a store with tip `tip`: it is the tip,
/// or the hash or previous hash of a stored block.
pub open spec fn hash_used(store: Seq<BlockModel>, tip: Seq<char>, h: Seq<char>) -> bool {
    tip == h || exists|k: int| 0 <= k < store.len() && ((#[trigger] store[k]).hash == h || store[k].prev_hash == h)
}

/// The transactions of a sequence of blocks, block by block, in order.
pub open spec fn flatten(blocks: Seq<BlockModel>) -> Seq<TxModel>
    decreases blocks.len(),
{
    if blocks.len() == 0 {
        Seq::empty()
    } else {
        flatten(blocks.drop_last()) + blocks.last().txs
    }
}

proof fn lemma_find_block_push(store: Seq<BlockModel>, b: BlockModel, h: Seq<char>)
    requires
        h != b.hash,
    ensures
        find_block(store.push(b), h) == find_block(store, h),
{
    let s2 = store.push(b);
    assert forall|k: int| first_block_with_hash(s2, h, k) <==> first_block_with_hash(store, h, k) by {
        if 0 <= k < store.len() {
            assert(s2[k] == store[k]);
            assert forall|j: int| 0 <= j < k implies s2[j] == store[j] by {}
        }
    }
    if exists|k: int| first_block_with_hash(store, h, k) {
        let c1 = choose|k: int| first_block_with_hash(store, h, k);
        let c2 = choose|k: int| first_block_with_hash(s2, h, k);
        assert(c1 == c2) by {
            if c1 < c2 {
                assert(s2[c1].hash != h);
            } else if c2 < c1 {
                assert(store[c2].hash != h);
            }
        }
    }
}

proof fn lemma_walk_in_range(store: Seq<BlockModel>, h: Seq<char>, fuel: nat)
    ensures
        forall|i: int| 0 <= i < walk(store, h, fuel).len() ==> 0 <= #[trigger] walk(store, h, fuel)[i] < store.len(),
    decreases fuel,
{
    if fuel > 0 {
        match find_block(store, h) {
            Some(k) => {
                let c = choose|c: int| first_block_with_hash(store, h, c);
                lemma_walk_in_range(store, store[k].prev_hash, (fuel - 1) as nat);
                let w = walk(store, h, fuel);
                assert forall|i: int| 0 <= i < w.len() implies 0 <= #[trigger] w[i] < store.len() by {
                    if i > 0 {
                        assert(w[i] == walk(store, store[k].prev_hash, (fuel - 1) as nat)[i - 1]);
                    }
                }
            },
            None => {},
        }
    }
}

proof fn lemma_walk_unchanged(store: Seq<BlockModel>, b: BlockModel, h: Seq<char>, fuel: nat)
    requires
        h != b.hash,
        forall|k: int| 0 <= k < store.len() ==> (#[trigger] store[k]).prev_hash != b.hash,
    ensures
        walk(store.push(b), h, fuel) == walk(store, h, fuel),
    decreases fuel,
{
    lemma_find_block_push(store, b, h);
    if fuel > 0 {
        match find_block(store, h) {
            Some(k) => {
                let c = choose|c: int| first_block_with_hash(store, h, c);
                assert(store.push(b)[k] == store[k]);
                lemma_walk_unchanged(store, b, store[k].prev_hash, (fuel - 1) as nat);
            },
            None => {},
        }
    }
}

/// Appending a block whose hash no stored block has, nor names as its
/// previous hash, on top of the tip, extends the chain's history by exactly
/// that block.
pub proof fn lemma_history_after_append(store: Seq<BlockModel>, tip: Seq<char>, b: BlockModel)
    requires
        b.prev_hash == tip,
        tip != b.hash,
        forall|k: int| 0 <= k < store.len() ==> (#[trigger] store[k]).hash != b.hash && store[k].prev_hash != b.hash,
    ensures
        chain_from_tip(store.push(b), b.hash) == seq![b] + chain_from_tip(store, tip),
        history_of(store.push(b), b.hash) == history_of(store, tip).push(b),
        flatten(history_of(store.push(b), b.hash)) == flatten(history_of(store, tip)) + b.txs,
{
    let s2 = store.push(b);
    let n = store.len() as int;
    assert(first_block_with_hash(s2, b.hash, n)) by {
        assert(s2[n] == b);
        assert forall|j: int| 0 <= j < n implies s2[j].hash != b.hash by {
            assert(s2[j] == store[j]);
        }
    }
    let c = choose|c: int| first_block_with_hash(s2, b.hash, c);
    assert(c == n) by {
        if c < n {
            assert(s2[c] == store[c]);
        }
    }
    assert(find_block(s2, b.hash) == Some(n));
    assert forall|k: int| 0 <= k < store.len() implies (#[trigger] store[k]).prev_hash != b.hash by {}
    lemma_walk_unchanged(store, b, tip, store.len());
    lemma_walk_in_range(store, tip, store.len());
    let w_old = walk(store, tip, store.len());
    let w_new = walk(s2, b.hash, s2.len());
    assert(s2.len() == store.len() + 1);
    assert(w_new == seq![n] + walk(s2, b.prev_hash, store.len()));
    let old_chain = chain_from_tip(store, tip);
    let new_chain = chain_from_tip(s2, b.hash);
    assert(new_chain =~= seq![b] + old_chain) by {
        assert forall|i: int| 0 <= i < new_chain.len() implies new_chain[i] == (seq![b] + old_chain)[i] by {
            if i > 0 {
                assert(w_new[i] == w_old[i - 1]);
                assert(s2[w_old[i - 1]] == store[w_old[i - 1]]);
            }
        }
    }
    assert(history_of(s2, b.hash) =~= history_of(store, tip).push(b));
    let h2 = history_of(s2, b.hash);
    assert(h2.drop_last() =~= history_of(store, tip));
}

/// The transactions of the blocks, block by block, in order.
fn collect_transactions(blocks: &Vec<Block>) -> (r: Vec<Transaction>)
    ensures
        models(r@) == flatten(blocks@.map_values(|x: Block| x@)),
{
    let ghost hist = blocks@.map_values(|x: Block| x@);
    let mut out: Vec<Transaction> = Vec::new();
    let mut b: usize = 0;
    while b < blocks.len()
        invariant
            b <= blocks@.len(),
            blocks@.map_values(|x: Block| x@) == hist,
            models(out@) == flatten(hist.take(b as int)),
        decreases blocks@.len() - b,
    {
        let txs = blocks[b].get_transaction();
        let ghost before = models(out@);
        let mut i: usize = 0;
        while i < txs.len()
            invariant
                b < blocks@.len(),
                i <= txs@.len(),
                models(out@) == before + models(txs@).take(i as int),
            decreases txs@.len() - i,
        {
            let ghost prev_out = out@;
            let c = txs[i].clone();
            out.push(c);
            proof {
                assert(models(out@) =~= models(prev_out).push(txs@[i as int]@));
                assert(models(txs@).take(i + 1) =~= models(txs@).take(i as int).push(txs@[i as int]@));
                assert(models(out@) =~= before + models(txs@).take(i + 1));
            }
            i = i + 1;
        }
        proof {
            assert(hist.take(b + 1).drop_last() =~= hist.take(b as int));
            assert(hist.take(b + 1).last() == blocks@[b as int]@);
            assert(models(txs@).take(txs@.len() as int) =~= models(txs@));
        }
        b = b + 1;
    }
    proof {
        assert(hist.take(blocks@.len() as int) =~= hist);
    }
    out
}

impl Blockchain {
    /// The stored blocks.
    pub closed spec fn store(&self) -> Seq<BlockModel> {
        self.blocks@.map_values(|b: Block| b@)
    }

    /// The hash of the tip.
    pub closed spec fn tip(&self) -> Seq<char> {
        self.current_hash@
    }

    /// The chain's blocks from the genesis block up to the tip.
    pub open spec fn history(&self) -> Seq<BlockModel> {
        history_of(self.store(), self.tip())
    }

    /// The chain's transactions, oldest first.
    pub open spec fn transactions(&self) -> Seq<TxModel> {
        flatten(self.history())
    }

    /// The chain's transactions as a walk from the tip meets them.
    pub open spec fn tip_transactions(&self) -> Seq<TxModel> {
        flatten(chain_from_tip(self.store(), self.tip()))
    }

    /// A chain over stored blocks, with the given tip.
    pub fn new(blocks: Vec<Block>, tip: String) -> (r: Blockchain)
        ensures
            r.store() == blocks@.map_values(|b: Block| b@),
            r.tip() == tip@,
    {
        Blockchain { blocks, current_hash: tip }
    }

    /// A new chain whose only block is a genesis block paying the reward to `address`.
    pub fn create_blockchain(address: String) -> (r: Result<Blockchain, LedgerError>)
        ensures
            match r {
                Ok(bc) => {
                    &&& bc.store().len() == 1
                    &&& bc.tip() == bc.store()[0].hash
                    &&& is_mined(bc.store()[0])
                    &&& bc.store()[0].prev_hash == Seq::<char>::empty()
                    &&& bc.store()[0].height == 0
                    &&& bc.store()[0].txs == seq![
                        with_id(coinbase_body(address@, GENESIS_COINBASE_DATA@)),
                    ]
                    &&& chain_from_tip(bc.store(), bc.tip()) == bc.store()
                },
                Err(e) => e == LedgerError::ClockError || e == LedgerError::NonceSpaceExhausted,
            },
    {
        let cbtx = Transaction::new_coinbase(address, String::from_str(GENESIS_COINBASE_DATA));
        let genesis = Block::new_genesis_block(cbtx)?;
        let current_hash = genesis.get_hash();
        let bc = Blockchain { blocks: vec![genesis], current_hash };
        proof {
            let store = bc.store();
            assert(store.len() == 1);
            assert(first_block_with_hash(store, bc.tip(), 0));
            let w = walk(store, bc.tip(), 1);
            assert(find_block(store, bc.tip()) == Some(0int));
            assert(walk(store, store[0].prev_hash, 0) == Seq::<int>::empty());
            assert(w =~= seq![0int]);
            assert(chain_from_tip(store, bc.tip()) =~= store);
        }
        Ok(bc)
    }

    /// Where the block with hash `h` is kept, if it is.
    fn find_block_index(&self, h: &str) -> (r: Option<usize>)
        ensures
            match r {
                Some(k) => find_block(self.store(), h@) == Some(k as int),
                None => find_block(self.store(), h@) is None,
            },
    {
        let ghost store = self.store();
        let mut i: usize = 0;
        while i < self.blocks.len()
            invariant
                i <= self.blocks@.len(),
                store == self.store(),
                forall|j: int| 0 <= j < i ==> store[j].hash != h@,
            decreases self.blocks@.len() - i,
        {
            if same_text(self.blocks[i].get_hash().as_str(), h) {
                proof {
                    assert(first_block_with_hash(store, h@, i as int));
                    let c = choose|c: int| first_block_with_hash(store, h@, c);
                    assert(c == i as int) by {
                        if c < i {
                            assert(store[c].hash != h@);
                        } else if c > i {
                            assert(store[i as int].hash != h@);
                        }
                    }
                }
                return Some(i);
            }
            i = i + 1;
        }
        None
    }

    /// The positions of the chain's blocks, from the tip back to the genesis block.
    fn chain_indices(&self) -> (r: Vec<usize>)
        ensures
            r@.len() == walk(self.store(), self.tip(), self.store().len()).len(),
            forall|i: int| 0 <= i < r@.len() ==> {
                &&& (#[trigger] r@[i]) as int == walk(self.store(), self.tip(), self.store().len())[i]
                &&& r@[i] < self.store().len()
            },
    {
        let ghost store = self.store();
        let ghost full = walk(store, self.tip(), store.len());
        let mut out: Vec<usize> = Vec::new();
        let mut cur = self.current_hash.clone();
        let mut fuel: usize = self.blocks.len();
        while fuel > 0
            invariant
                store == self.store(),
                fuel <= store.len(),
                out@.len() + walk(store, cur@, fuel as nat).len() == full.len(),
                forall|i: int| 0 <= i < out@.len() ==> {
                    &&& (#[trigger] out@[i]) as int == full[i]
                    &&& out@[i] < store.len()
                },
                forall|i: int| 0 <= i < walk(store, cur@, fuel as nat).len() ==> #[trigger] walk(store, cur@, fuel as nat)[i]
                    == full[out@.len() + i],
            decreases fuel,
        {
            match self.find_block_index(cur.as_str()) {
                Some(k) => {
                    let ghost w = walk(store, cur@, fuel as nat);
                    let next = self.blocks[k].get_prev_hash();
                    proof {
                        assert(w == seq![k as int] + walk(store, store[k as int].prev_hash, (fuel - 1) as nat));
                        assert(w[0] == k as int);
                        assert forall|i: int| 0 <= i < walk(store, next@, (fuel - 1) as nat).len() implies
                            #[trigger] walk(store, next@, (fuel - 1) as nat)[i] == full[out@.len() + 1 + i] by {
                            assert(w[i + 1] == walk(store, next@, (fuel - 1) as nat)[i]);
                        }
                    }
                    out.push(k);
                    cur = next;
                    fuel = fuel - 1;
                },
                None => {
                    fuel = 0;
                },
            }
        }
        out
    }

    /// The chain's blocks from the tip back to the genesis block.
    pub fn blocks_from_tip(&self) -> (r: Vec<Block>)
        ensures
            r@.map_values(|b: Block| b@) == chain_from_tip(self.store(), self.tip()),
    {
        let idx = self.chain_indices();
        let ghost want = chain_from_tip(self.store(), self.tip());
        let mut out: Vec<Block> = Vec::new();
        let mut i: usize = 0;
        while i < idx.len()
            invariant
                i <= idx@.len(),
                out@.len() == i,
                want == chain_from_tip(self.store(), self.tip()),
                want.len() == idx@.len(),
                forall|j: int| 0 <= j < idx@.len() ==> {
                    &&& (#[trigger] idx@[j]) as int == walk(self.store(), self.tip(), self.store().len())[j]
                    &&& idx@[j] < self.store().len()
                },
                forall|j: int| 0 <= j < i ==> #[trigger] out@[j]@ == want[j],
            decreases idx@.len() - i,
        {
            out.push(self.blocks[idx[i]].clone());
            i = i + 1;
        }
        proof {
            assert(out@.map_values(|b: Block| b@) =~= want);
        }
        out
    }

    /// The chain's blocks from the genesis block up to the tip.
    pub fn blocks_from_genesis(&self) -> (r: Vec<Block>)
        ensures
            r@.map_values(|b: Block| b@) == self.history(),
    {
        let from_tip = self.blocks_from_tip();
        let ghost want = self.history();
        let n = from_tip.len();
        let mut out: Vec<Block> = Vec::new();
        let mut i: usize = 0;
        while i < n
            invariant
                n == from_tip@.len(),
                i <= n,
                out@.len() == i,
                want == self.history(),
                from_tip@.map_values(|b: Block| b@) == chain_from_tip(self.store(), self.tip()),
                forall|j: int| 0 <= j < i ==> #[trigger] out@[j]@ == want[j],
            decreases n - i,
        {
            out.push(from_tip[n - 1 - i].clone());
            i = i + 1;
        }
        proof {
            assert(out@.map_values(|b: Block| b@) =~= want);
        }
        out
    }

    /// The chain's transactions, oldest first.
    pub fn history_transactions(&self) -> (r: Vec<Transaction>)
        ensures
            models(r@) == self.transactions(),
    {
        let blocks = self.blocks_from_genesis();
        collect_transactions(&blocks)
    }

    /// The chain's transactions as a walk from the tip meets them: blocks
    /// from the tip back, each block's transactions in order.
    pub fn transactions_from_tip(&self) -> (r: Vec<Transaction>)
        ensures
            models(r@) == self.tip_transactions(),
    {
        let blocks = self.blocks_from_tip();
        collect_transactions(&blocks)
    }

    /// The first transaction with the given id that a walk from the tip meets.
    pub fn find_transaction(&self, id: &str) -> (r: Result<Transaction, LedgerError>)
        ensures
            match r {
                Ok(t) => exists|k: int|
                    first_with_id(self.tip_transactions(), id@, k) && t@ == self.tip_transactions()[k],
                Err(e) => e == LedgerError::TransactionNotFound && !exists|k: int|
                    first_with_id(self.tip_transactions(), id@, k),
            },
    {
        let txs = self.transactions_from_tip();
        match find_tx_index(&txs, id) {
            Some(k) => Ok(txs[k].clone()),
            None => Err(LedgerError::TransactionNotFound),
        }
    }

    /// Signs `tx` with `private_key`, looking up the outputs that it spends
    /// on the chain, the first met from the tip counting.
    pub fn sign_transaction(&self, tx: &mut Transaction, private_key: &[u8]) -> (r: Result<(), LedgerError>)
        requires
            private_key@.len() >= 64,
        ensures
            is_coinbase_tx(old(tx)@) ==> r is Ok && final(tx)@ == old(tx)@,
            !is_coinbase_tx(old(tx)@) ==> (r is Ok <==> all_referenced(old(tx)@, self.tip_transactions())),
            r is Err ==> r == Err::<(), LedgerError>(LedgerError::MissingReferencedTransaction)
                && final(tx)@ == old(tx)@,
            !is_coinbase_tx(old(tx)@) && r is Ok ==> final(tx)@ == signed(
                old(tx)@,
                self.tip_transactions(),
                private_key@,
            ),
    {
        let prev = self.transactions_from_tip();
        tx.sign(private_key, &prev)
    }

    /// Checks the signatures of `tx` against the outputs that it spends on
    /// the chain, the first met from the tip counting.
    pub fn verify_transaction(&self, tx: &Transaction) -> (r: Result<bool, LedgerError>)
        ensures
            is_coinbase_tx(tx@) ==> r == Ok::<bool, LedgerError>(true),
            !is_coinbase_tx(tx@) ==> (r is Ok <==> all_referenced(tx@, self.tip_transactions())),
            r is Err ==> r == Err::<bool, LedgerError>(LedgerError::MissingReferencedTransaction),
            !is_coinbase_tx(tx@) && r is Ok ==> r == Ok::<bool, LedgerError>(
                all_inputs_verify(tx@, self.tip_transactions()),
            ),
    {
        let prev = self.transactions_from_tip();
        tx.verify(&prev)
    }

    /// The unspent outputs of the whole chain: a full scan, independent of
    /// the order in which blocks are visited, naming each output once.
    pub fn find_UTXO(&self) -> (r: Vec<Utxo>)
        ensures
            keys_unique(utxo_models(r@)),
            entry_set(r@).subset_of(unspent_set(self.transactions())),
            forall|u: UtxoModel| #[trigger] unspent_set(self.transactions()).contains(u) ==> has_key_in(
                utxo_models(r@),
                u.txid,
                u.index,
            ),
    {
        let txs = self.history_transactions();
        unspent_outputs(&txs)
    }

    /// The chain's transactions, oldest first, that hold an output locked to
    /// `address` which no transaction of the chain spends.
    pub fn find_unspent_transaction(&self, address: &str) -> (r: Vec<Transaction>)
        ensures
            models(r@) == txs_with_unspent(self.transactions(), self.transactions().len() as int, address@),
    {
        let txs = self.history_transactions();
        let ghost all = models(txs@);
        let mut out: Vec<Transaction> = Vec::new();
        let mut k: usize = 0;
        while k < txs.len()
            invariant
                k <= txs@.len(),
                all == models(txs@),
                models(out@) == txs_with_unspent(all, k as int, address@),
            decreases txs@.len() - k,
        {
            let t = &txs[k];
            let mut found = false;
            let mut i: usize = 0;
            while i < t.vout.len() && !found
                invariant
                    k < txs@.len(),
                    t == txs@[k as int],
                    all == models(txs@),
                    i <= t.vout@.len(),
                    found ==> has_unspent_for(all, all[k as int], address@),
                    !found ==> forall|j: int| 0 <= j < i ==> !(#[trigger] all[k as int].vout[j].key == address@
                        && !spent_in(all, all[k as int].id, j)),
                decreases t.vout@.len() - i,
            {
                if t.vout[i].can_be_unlock_with(address) && !spent_by_any(&txs, t.id.as_str(), i) {
                    assert(all[k as int].vout[i as int].key == address@);
                    found = true;
                }
                i = i + 1;
            }
            proof {
                if !found {
                    assert(i == t.vout@.len());
                    assert(!has_unspent_for(all, all[k as int], address@));
                }
            }
            let ghost prev_out = out@;
            if found {
                out.push(t.clone());
                proof {
                    assert(models(out@) =~= models(prev_out).push(all[k as int]));
                }
            }
            proof {
                assert(models(out@) =~= txs_with_unspent(all, k + 1, address@));
            }
            k = k + 1;
        }
        out
    }

    /// Whether `h` is the tip, or the hash or previous hash of a stored block.
    fn hash_in_use(&self, h: &String) -> (r: bool)
        ensures
            r == hash_used(self.store(), self.tip(), h@),
    {
        if same_text(self.current_hash.as_str(), h.as_str()) {
            return true;
        }
        let mut k: usize = 0;
        while k < self.blocks.len()
            invariant
                k <= self.blocks@.len(),
                self.tip() != h@,
                forall|j: int|
                    0 <= j < k ==> (#[trigger] self.store()[j]).hash != h@ && self.store()[j].prev_hash != h@,
            decreases self.blocks@.len() - k,
        {
            let b = &self.blocks[k];
            if same_text(b.get_hash().as_str(), h.as_str()) || same_text(b.get_prev_hash().as_str(), h.as_str()) {
                assert(self.store()[k as int] == self.blocks@[k as int]@);
                return true;
            }
            k = k + 1;
        }
        false
    }

    /// Stores a mined block and makes it the tip, unless its hash is already
    /// in use (`HashInUse`, nothing changed). When the block builds on the
    /// tip, the chain then grows by exactly that block.
    pub fn append(&mut self, block: Block) -> (r: Result<(), LedgerError>)
        ensures
            r is Err <==> hash_used(old(self).store(), old(self).tip(), block@.hash),
            match r {
                Ok(_) => {
                    &&& final(self).store() == old(self).store().push(block@)
                    &&& final(self).tip() == block@.hash
                    &&& block@.prev_hash == old(self).tip() ==> {
                        &&& chain_from_tip(final(self).store(), final(self).tip()) == seq![block@]
                            + chain_from_tip(old(self).store(), old(self).tip())
                        &&& final(self).history() == old(self).history().push(block@)
                        &&& final(self).transactions() == old(self).transactions() + block@.txs
                    }
                },
                Err(e) => {
                    &&& e == LedgerError::HashInUse
                    &&& final(self).store() == old(self).store()
                    &&& final(self).tip() == old(self).tip()
                },
            },
    {
        let h = block.get_hash();
        if self.hash_in_use(&h) {
            return Err(LedgerError::HashInUse);
        }
        proof {
            if block@.prev_hash == self.tip() {
                lemma_history_after_append(self.store(), self.tip(), block@);
            }
        }
        let ghost bm = block@;
        self.blocks.push(block);
        self.current_hash = h;
        proof {
            assert(self.store() =~= old(self).store().push(bm));
        }
        Ok(())
    }

    /// Mines a block of `transactions` on top of the tip, stores it and
    /// makes it the tip. Its height is the length of the chain below it. A
    /// mined block whose hash is already in use (the tip, or the hash or
    /// previous hash of a stored block) is not stored (`HashInUse`); a stored
    /// one makes the chain grow by exactly that block.
    pub fn add_block(&mut self, transactions: Vec<Transaction>) -> (r: Result<Block, LedgerError>)
        ensures
            match r {
                Ok(b) => {
                    &&& is_mined(b@)
                    &&& b@.txs == models(transactions@)
                    &&& b@.prev_hash == old(self).tip()
                    &&& b@.height == chain_from_tip(old(self).store(), old(self).tip()).len()
                    &&& !hash_used(old(self).store(), old(self).tip(), b@.hash)
                    &&& final(self).store() == old(self).store().push(b@)
                    &&& final(self).tip() == b@.hash
                    &&& chain_from_tip(final(self).store(), final(self).tip()) == seq![b@] + chain_from_tip(
                        old(self).store(),
                        old(self).tip(),
                    )
                    &&& final(self).history() == old(self).history().push(b@)
                    &&& final(self).transactions() == old(self).transactions() + b@.txs
                },
                Err(e) => {
                    &&& e == LedgerError::ClockError || e == LedgerError::NonceSpaceExhausted || e
                        == LedgerError::HashInUse
                    &&& e == LedgerError::HashInUse ==> exists|b: BlockModel|
                        #[trigger] is_mined(b) && b.txs == models(transactions@) && b.prev_hash == old(self).tip()
                            && b.height == chain_from_tip(old(self).store(), old(self).tip()).len() && hash_used(
                            old(self).store(),
                            old(self).tip(),
                            b.hash,
                        )
                    &&& final(self).store() == old(self).store()
                    &&& final(self).tip() == old(self).tip()
                },
            },
    {
        let height = self.chain_indices().len();
        let new_block = Block::new_block(transactions, self.current_hash.clone(), height)?;
        match self.append(new_block.clone()) {
            Ok(()) => Ok(new_block),
            Err(e) => {
                assert(is_mined(new_block@));
                Err(e)
            },
        }
    }

    /// A walk over the chain, from the tip back to the genesis block.
    pub fn iter(&self) -> (r: BlockchainIter<'_>)
        ensures
            r.remaining() == chain_from_tip(self.store(), self.tip()),
    {
        BlockchainIter { current_hash: self.current_hash.clone(), fuel: self.blocks.len(), bc: self }
    }

    /// The hash of the tip.
    pub fn get_tip(&self) -> (r: String)
        ensures
            r@ == self.tip(),
    {
        self.current_hash.clone()
    }

    /// Every stored block, in the order in which they were stored.
    pub fn stored_blocks(&self) -> (r: &Vec<Block>)
        ensures
            r@.map_values(|b: Block| b@) == self.store(),
    {
        &self.blocks
    }
}

impl<'a> BlockchainIter<'a> {
    /// The blocks that the walk has yet to yield.
    pub closed spec fn remaining(&self) -> Seq<BlockModel> {
        walk(self.bc.store(), self.current_hash@, self.fuel as nat).map_values(|k: int| self.bc.store()[k])
    }

    /// The next block of the walk, or `None` once the walk has ended.
    pub fn next(&mut self) -> (r: Option<Block>)
        ensures
            match r {
                Some(b) => old(self).remaining() == seq![b@] + final(self).remaining(),
                None => old(self).remaining().len() == 0 && final(self).remaining().len() == 0,
            },
    {
        if self.fuel == 0 {
            return None;
        }
        match self.bc.find_block_index(self.current_hash.as_str()) {
            Some(k) => {
                let ghost store = self.bc.store();
                let ghost w = walk(store, self.current_hash@, self.fuel as nat);
                let b = self.bc.blocks[k].clone();
                self.current_hash = b.get_prev_hash();
                self.fuel = self.fuel - 1;
                proof {
                    assert(w == seq![k as int] + walk(store, self.current_hash@, self.fuel as nat));
                    assert(old(self).remaining() =~= seq![b@] + self.remaining());
                }
                Some(b)
            },
            None => None,
        }
    }
}

} // verus!
