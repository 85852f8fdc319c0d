//! The unspent-output index: a cache derived from the chain, rebuilt by a
//! full scan or kept current block by block.

use crate::block::{Block, BlockModel, is_mined};
use crate::blockchain::{Blockchain, chain_from_tip, flatten, hash_used, lemma_history_after_append};
use crate::codec::same_text;
use crate::errors::LedgerError;
use crate::hashing::address_of;
use crate::transaction::{
    InputModel, OutputModel, TXInput, TXOutput, Transaction, TxModel, all_referenced, is_coinbase_tx,
    coinbase_body, models, signed, with_id,
};
use crate::wallet::{Wallet, WalletModel};
use vstd::prelude::*;

verus! {

/// An unspent output, with the transaction and position it comes from.
#[derive(Debug)]
pub struct Utxo {
    pub txid: String,
    pub index: usize,
    pub output: TXOutput,
}

/// What an index entry holds, as plain values.
pub struct UtxoModel {
    pub txid: Seq<char>,
    pub index: int,
    pub output: OutputModel,
}

impl View for Utxo {
    type V = UtxoModel;

    open spec fn view(&self) -> UtxoModel {
        UtxoModel { txid: self.txid@, index: self.index as int, output: self.output@ }
    }
}

impl Clone for Utxo {
    fn clone(&self) -> (r: Self)
        ensures
            r@ == self@,
    {
        Utxo { txid: self.txid.clone(), index: self.index, output: self.output.clone() }
    }
}

/// The views of a sequence of index entries.
pub open spec fn utxo_models(v: Seq<Utxo>) -> Seq<UtxoModel> {
    v.map_values(|u: Utxo| u@)
}

/// Whether `t` has an input that spends output `index` of transaction `txid`.
/// A coinbase spends nothing.
pub open spec fn spends(t: TxModel, txid: Seq<char>, index: int) -> bool {
    !is_coinbase_tx(t) && exists|m: int|
        0 <= m < t.vin.len() && #[trigger] t.vin[m].txid == txid && t.vin[m].vout == index
}

/// Whether some transaction of `txs` spends output `index` of transaction `txid`.
pub open spec fn spent_in(txs: Seq<TxModel>, txid: Seq<char>, index: int) -> bool {
    exists|k: int| 0 <= k < txs.len() && #[trigger] spends(txs[k], txid, index)
}

/// Output `i` of `t` as an index entry.
pub open spec fn entry_of(t: TxModel, i: int) -> UtxoModel {
    UtxoModel { txid: t.id, index: i, output: t.vout[i] }
}

/// The entries for all outputs of `t`.
pub open spec fn outputs_of(t: TxModel) -> Set<UtxoModel> {
    Set::new(|u: UtxoModel| exists|i: int| 0 <= i < t.vout.len() && u == #[trigger] entry_of(t, i))
}

/// The unspent outputs of a set of transactions: every output of one of
/// them that no input of any of them spends.
pub open spec fn unspent_set(txs: Seq<TxModel>) -> Set<UtxoModel> {
    Set::new(
        |u: UtxoModel|
            exists|k: int, i: int|
                0 <= k < txs.len() && 0 <= i < txs[k].vout.len() && u == #[trigger] entry_of(txs[k], i)
                    && !spent_in(txs, txs[k].id, i),
    )
}

/// An entry stays when `t` comes: `t` does not spend it, and it is not
/// filed under `t`'s id, whose entries `t`'s own outputs replace.
pub open spec fn keeps(t: TxModel, u: UtxoModel) -> bool {
    !spends(t, u.txid, u.index) && u.txid != t.id
}

/// The index after one transaction: the outputs that it spends leave, and
/// its own outputs replace whatever was filed under its id.
pub open spec fn apply_tx(s: Set<UtxoModel>, t: TxModel) -> Set<UtxoModel> {
    s.filter(|u: UtxoModel| keeps(t, u)).union(outputs_of(t))
}

/// Two entries name the same output: the same transaction id and position.
pub open spec fn same_key(u: UtxoModel, v: UtxoModel) -> bool {
    u.txid == v.txid && u.index == v.index
}

/// No two entries of the sequence name the same output.
pub open spec fn keys_unique(s: Seq<UtxoModel>) -> bool {
    forall|i: int, j: int| 0 <= i < j < s.len() ==> !same_key(#[trigger] s[i], #[trigger] s[j])
}

/// No two members of the set name the same output.
pub open spec fn set_keys_unique(s: Set<UtxoModel>) -> bool {
    forall|u: UtxoModel, v: UtxoModel| s.contains(u) && s.contains(v) && same_key(u, v) ==> u == v
}

/// Some entry of the sequence names output `index` of transaction `txid`.
pub open spec fn has_key_in(s: Seq<UtxoModel>, txid: Seq<char>, index: int) -> bool {
    exists|x: int| 0 <= x < s.len() && (#[trigger] s[x]).txid == txid && s[x].index == index
}

/// The sequence with each entry dropped whose output an earlier kept entry names.
pub open spec fn dedup_keys(s: Seq<UtxoModel>) -> Seq<UtxoModel>
    decreases s.len(),
{
    if s.len() == 0 {
        s
    } else {
        let d = dedup_keys(s.drop_last());
        if has_key_in(d, s.last().txid, s.last().index) {
            d
        } else {
            d.push(s.last())
        }
    }
}

/// The index after a sequence of transactions, applied in order.
pub open spec fn apply_txs(s: Set<UtxoModel>, txs: Seq<TxModel>) -> Set<UtxoModel>
    decreases txs.len(),
{
    if txs.len() == 0 {
        s
    } else {
        apply_tx(apply_txs(s, txs.drop_last()), txs.last())
    }
}

/// Whether some entry of `v` names output `index` of transaction `txid`.
pub fn has_key(v: &Vec<Utxo>, txid: &str, index: usize) -> (r: bool)
    ensures
        r == has_key_in(utxo_models(v@), txid@, index as int),
{
    let mut x: usize = 0;
    while x < v.len()
        invariant
            x <= v@.len(),
            forall|y: int| 0 <= y < x ==> !(v@[y]@.txid == txid@ && v@[y]@.index == index as int),
        decreases v@.len() - x,
    {
        if v[x].index == index && same_text(v[x].txid.as_str(), txid) {
            assert(utxo_models(v@)[x as int] == v@[x as int]@);
            return true;
        }
        x = x + 1;
    }
    proof {
        assert forall|y: int| 0 <= y < utxo_models(v@).len() implies !((#[trigger] utxo_models(v@)[y]).txid
            == txid@ && utxo_models(v@)[y].index == index as int) by {
            assert(utxo_models(v@)[y] == v@[y]@);
        }
    }
    false
}

/// The entries held by a sequence of index entries, as a set.
pub open spec fn entry_set(v: Seq<Utxo>) -> Set<UtxoModel> {
    utxo_models(v).to_set()
}

/// Whether `t` spends output `index` of transaction `txid`.
pub fn tx_spends(t: &Transaction, txid: &str, index: usize) -> (r: bool)
    ensures
        r == spends(t@, txid@, index as int),
{
    if t.is_coinbase() {
        return false;
    }
    let mut m: usize = 0;
    while m < t.vin.len()
        invariant
            m <= t.vin@.len(),
            !is_coinbase_tx(t@),
            forall|j: int| 0 <= j < m ==> !(#[trigger] t@.vin[j].txid == txid@ && t@.vin[j].vout == index as int),
        decreases t.vin@.len() - m,
    {
        let input = &t.vin[m];
        if input.vout >= 0 && input.vout as usize == index && same_text(input.txid.as_str(), txid) {
            assert(t@.vin[m as int].txid == txid@);
            return true;
        }
        m = m + 1;
    }
    false
}

/// Whether some transaction of `txs` spends output `index` of transaction `txid`.
pub fn spent_by_any(txs: &Vec<Transaction>, txid: &str, index: usize) -> (r: bool)
    ensures
        r == spent_in(models(txs@), txid@, index as int),
{
    let mut k: usize = 0;
    while k < txs.len()
        invariant
            k <= txs@.len(),
            forall|j: int| 0 <= j < k ==> !spends(#[trigger] models(txs@)[j], txid@, index as int),
        decreases txs@.len() - k,
    {
        if tx_spends(&txs[k], txid, index) {
            assert(spends(models(txs@)[k as int], txid@, index as int));
            return true;
        }
        k = k + 1;
    }
    false
}

/// The unspent outputs of `txs`: each output of one of them that no input
/// of any of them spends, in the order of the transactions and of their
/// outputs, each output named once.
pub fn unspent_outputs(txs: &Vec<Transaction>) -> (r: Vec<Utxo>)
    ensures
        keys_unique(utxo_models(r@)),
        entry_set(r@).subset_of(unspent_set(models(txs@))),
        forall|u: UtxoModel| #[trigger] unspent_set(models(txs@)).contains(u) ==> has_key_in(utxo_models(r@), u.txid, u.index),
{
    let ghost all = models(txs@);
    let mut out: Vec<Utxo> = Vec::new();
    let mut k: usize = 0;
    while k < txs.len()
        invariant
            k <= txs@.len(),
            all == models(txs@),
            keys_unique(utxo_models(out@)),
            forall|j: int| 0 <= j < out@.len() ==> unspent_set(all).contains(#[trigger] out@[j]@),
            forall|kk: int, i: int|
                0 <= kk < k && 0 <= i < all[kk].vout.len() && !spent_in(all, all[kk].id, i)
                    ==> #[trigger] has_key_in(utxo_models(out@), all[kk].id, i),
        decreases txs@.len() - k,
    {
        let t = &txs[k];
        let mut i: usize = 0;
        while i < t.vout.len()
            invariant
                k < txs@.len(),
                t == txs@[k as int],
                i <= t.vout@.len(),
                all == models(txs@),
                keys_unique(utxo_models(out@)),
                forall|j: int| 0 <= j < out@.len() ==> unspent_set(all).contains(#[trigger] out@[j]@),
                forall|kk: int, ii: int|
                    0 <= kk < k && 0 <= ii < all[kk].vout.len() && !spent_in(all, all[kk].id, ii)
                        ==> #[trigger] has_key_in(utxo_models(out@), all[kk].id, ii),
                forall|ii: int|
                    0 <= ii < i && !spent_in(all, all[k as int].id, ii)
                        ==> #[trigger] has_key_in(utxo_models(out@), all[k as int].id, ii),
            decreases t.vout@.len() - i,
        {
            if !spent_by_any(txs, t.id.as_str(), i) && !has_key(&out, t.id.as_str(), i) {
                let ghost prev = out@;
                out.push(Utxo { txid: t.id.clone(), index: i, output: t.vout[i].clone() });
                proof {
                    let pm = utxo_models(prev);
                    let om = utxo_models(out@);
                    assert(om =~= pm.push(entry_of(all[k as int], i as int)));
                    assert(unspent_set(all).contains(entry_of(all[k as int], i as int)));
                    assert forall|a: int, b: int| 0 <= a < b < om.len() implies !same_key(
                        #[trigger] om[a],
                        #[trigger] om[b],
                    ) by {
                        if b == pm.len() {
                            assert(om[a] == pm[a]);
                        } else {
                            assert(om[a] == pm[a] && om[b] == pm[b]);
                        }
                    }
                    assert forall|tx: Seq<char>, ii: int| has_key_in(pm, tx, ii) implies has_key_in(om, tx, ii) by {
                        let x = choose|x: int| 0 <= x < pm.len() && (#[trigger] pm[x]).txid == tx && pm[x].index == ii;
                        assert(om[x] == pm[x]);
                    }
                    assert(om[pm.len() as int] == entry_of(all[k as int], i as int));
                    assert(has_key_in(om, all[k as int].id, i as int));
                }
            }
            i = i + 1;
        }
        k = k + 1;
    }
    proof {
        assert forall|u: UtxoModel| entry_set(out@).contains(u) implies unspent_set(all).contains(u) by {
            let j = choose|j: int| 0 <= j < utxo_models(out@).len() && utxo_models(out@)[j] == u;
            assert(out@[j]@ == u);
        }
        assert forall|u: UtxoModel| #[trigger] unspent_set(all).contains(u) implies has_key_in(
            utxo_models(out@),
            u.txid,
            u.index,
        ) by {
            let (kk, i) = choose|kk: int, i: int|
                0 <= kk < all.len() && 0 <= i < all[kk].vout.len() && u == #[trigger] entry_of(all[kk], i)
                    && !spent_in(all, all[kk].id, i);
            assert(has_key_in(utxo_models(out@), all[kk].id, i));
        }
    }
    out
}

/// An index whose entries name each output once, all belong to a set whose
/// members name each output once, and name every member's output, holds
/// exactly that set.
pub proof fn lemma_index_pinned(s: Seq<UtxoModel>, target: Set<UtxoModel>)
    requires
        keys_unique(s),
        s.to_set().subset_of(target),
        forall|u: UtxoModel| #[trigger] target.contains(u) ==> has_key_in(s, u.txid, u.index),
        set_keys_unique(target),
    ensures
        s.to_set() == target,
{
    assert forall|u: UtxoModel| target.contains(u) implies s.to_set().contains(u) by {
        let x = choose|x: int| 0 <= x < s.len() && (#[trigger] s[x]).txid == u.txid && s[x].index == u.index;
        assert(s.to_set().contains(s[x]));
        assert(same_key(s[x], u));
    }
    assert(s.to_set() =~= target);
}

/// The first-fit selection over `entries[..n]`: entries locked to
/// `address` are taken in order while the running total is below `amount`.
/// Gives the total taken and the (transaction id, position) of each entry taken.
pub open spec fn select(entries: Seq<UtxoModel>, address: Seq<char>, amount: int, n: int) -> (int, Seq<(Seq<char>, int)>)
    decreases n,
{
    if n <= 0 {
        (0, Seq::empty())
    } else {
        let (total, taken) = select(entries, address, amount, n - 1);
        let u = entries[n - 1];
        if u.output.key == address && total < amount {
            (total + u.output.value, taken.push((u.txid, u.index)))
        } else {
            (total, taken)
        }
    }
}

/// The total value of `entries[..n]` locked to `address`.
pub open spec fn balance_of(entries: Seq<UtxoModel>, address: Seq<char>, n: int) -> int
    decreases n,
{
    if n <= 0 {
        0
    } else {
        balance_of(entries, address, n - 1) + if entries[n - 1].output.key == address {
            entries[n - 1].output.value as int
        } else {
            0
        }
    }
}

/// The outputs of `entries[..n]` locked to `address`, in order.
pub open spec fn outputs_for(entries: Seq<UtxoModel>, address: Seq<char>, n: int) -> Seq<OutputModel>
    decreases n,
{
    if n <= 0 {
        Seq::empty()
    } else if entries[n - 1].output.key == address {
        outputs_for(entries, address, n - 1).push(entries[n - 1].output)
    } else {
        outputs_for(entries, address, n - 1)
    }
}

/// How many distinct transaction ids `entries[..n]` holds.
pub open spec fn distinct_txids(entries: Seq<UtxoModel>, n: int) -> int
    decreases n,
{
    if n <= 0 {
        0
    } else {
        distinct_txids(entries, n - 1) + if exists|j: int| 0 <= j < n - 1 && #[trigger] entries[j].txid == entries[n
            - 1].txid {
            0int
        } else {
            1int
        }
    }
}

/// The index after replaying whole blocks in order.
pub open spec fn replay_blocks(s: Set<UtxoModel>, blocks: Seq<BlockModel>) -> Set<UtxoModel>
    decreases blocks.len(),
{
    if blocks.len() == 0 {
        s
    } else {
        apply_txs(replay_blocks(s, blocks.drop_last()), blocks.last().txs)
    }
}

/// No two transactions of the history share an id, and every input spends
/// an output of a transaction that comes strictly before it.
pub open spec fn valid_history(txs: Seq<TxModel>) -> bool {
    &&& forall|a: int, b: int| 0 <= a < b < txs.len() ==> #[trigger] txs[a].id != #[trigger] txs[b].id
    &&& forall|k: int, j: int, i: int|
        0 <= k < txs.len() && 0 <= j < txs.len() && #[trigger] spends(txs[k], txs[j].id, i) ==> j < k
}

/// The index and the chain that it is derived from.
pub struct UTXOSet {
    pub blockchain: Blockchain,
    pub utxos: Vec<Utxo>,
}

impl UTXOSet {
    /// The index entries, in their stored order.
    pub open spec fn entries(&self) -> Seq<UtxoModel> {
        utxo_models(self.utxos@)
    }

    /// The chain that the index is derived from.
    pub open spec fn chain(&self) -> Blockchain {
        self.blockchain
    }

    /// No two entries name the same output.
    pub open spec fn wf(&self) -> bool {
        keys_unique(self.entries())
    }

    /// The index entries, as a set.
    pub open spec fn index(&self) -> Set<UtxoModel> {
        self.entries().to_set()
    }

    /// An index over `blockchain` holding the given entries, less each
    /// entry whose output an earlier entry already names.
    pub fn new(blockchain: Blockchain, utxos: Vec<Utxo>) -> (r: UTXOSet)
        ensures
            r.entries() == dedup_keys(utxo_models(utxos@)),
            r.wf(),
            r.chain().store() == blockchain.store(),
            r.chain().tip() == blockchain.tip(),
    {
        let ghost given = utxo_models(utxos@);
        let mut kept: Vec<Utxo> = Vec::new();
        let mut j: usize = 0;
        while j < utxos.len()
            invariant
                j <= utxos@.len(),
                given == utxo_models(utxos@),
                utxo_models(kept@) == dedup_keys(given.take(j as int)),
            decreases utxos@.len() - j,
        {
            let u = &utxos[j];
            proof {
                assert(given.take(j + 1).drop_last() =~= given.take(j as int));
                assert(given.take(j + 1).last() == u@);
            }
            if !has_key(&kept, u.txid.as_str(), u.index) {
                let ghost prev = kept@;
                kept.push(u.clone());
                proof {
                    assert(utxo_models(kept@) =~= utxo_models(prev).push(u@));
                }
            }
            j = j + 1;
        }
        proof {
            assert(given.take(utxos@.len() as int) =~= given);
            lemma_dedup_unique(given);
        }
        UTXOSet { blockchain, utxos: kept }
    }

    /// The stored entries.
    pub fn utxos(&self) -> (r: &Vec<Utxo>)
        ensures
            utxo_models(r@) == self.entries(),
    {
        &self.utxos
    }

    /// Rebuilds the index from a full scan of the chain: each unspent output
    /// is named once, and when no two unspent outputs share a name (as when
    /// no two transactions share an id) the index holds exactly them.
    pub fn reindex(&mut self)
        ensures
            final(self).wf(),
            final(self).index().subset_of(unspent_set(old(self).chain().transactions())),
            forall|u: UtxoModel| #[trigger] unspent_set(old(self).chain().transactions()).contains(u)
                ==> has_key_in(final(self).entries(), u.txid, u.index),
            set_keys_unique(unspent_set(old(self).chain().transactions())) ==> final(self).index()
                == unspent_set(old(self).chain().transactions()),
            final(self).chain().store() == old(self).chain().store(),
            final(self).chain().tip() == old(self).chain().tip(),
    {
        self.utxos = self.blockchain.find_UTXO();
        proof {
            let target = unspent_set(self.blockchain.transactions());
            if set_keys_unique(target) {
                lemma_index_pinned(self.entries(), target);
            }
        }
    }

    /// Brings the index up to date with a block appended to the chain, one
    /// transaction after another: the outputs that a transaction spends
    /// leave, and its own outputs replace whatever was filed under its id.
    pub fn update(&mut self, block: &Block)
        requires
            old(self).wf(),
        ensures
            final(self).wf(),
            final(self).index() == apply_txs(old(self).index(), block@.txs),
            final(self).chain().store() == old(self).chain().store(),
            final(self).chain().tip() == old(self).chain().tip(),
    {
        let txs = block.get_transaction();
        let ghost start = self.index();
        let mut k: usize = 0;
        while k < txs.len()
            invariant
                k <= txs@.len(),
                models(txs@) == block@.txs,
                self.wf(),
                self.blockchain.store() == old(self).chain().store(),
                self.blockchain.tip() == old(self).chain().tip(),
                self.index() == apply_txs(start, models(txs@).take(k as int)),
            decreases txs@.len() - k,
        {
            let t = &txs[k];
            let ghost before = self.index();
            let ghost es = self.entries();
            let mut kept: Vec<Utxo> = Vec::new();
            let mut j: usize = 0;
            while j < self.utxos.len()
                invariant
                    j <= self.utxos@.len(),
                    before == self.index(),
                    es == self.entries(),
                    self.wf(),
                    keys_unique(utxo_models(kept@)),
                    forall|x: int| 0 <= x < kept@.len() ==> {
                        &&& before.contains(#[trigger] kept@[x]@)
                        &&& keeps(t@, kept@[x]@)
                    },
                    forall|x: int, y: int|
                        0 <= x < kept@.len() && j <= y < es.len() ==> !same_key(#[trigger] kept@[x]@, #[trigger] es[y]),
                    forall|y: int| 0 <= y < j && keeps(t@, self.utxos@[y]@)
                        ==> utxo_models(kept@).contains(#[trigger] self.utxos@[y]@),
                decreases self.utxos@.len() - j,
            {
                let u = &self.utxos[j];
                if !tx_spends(t, u.txid.as_str(), u.index) && !same_text(u.txid.as_str(), t.id.as_str()) {
                    let ghost prev = kept@;
                    kept.push(u.clone());
                    proof {
                        lemma_push_contains(prev, kept@);
                        assert(es[j as int] == self.utxos@[j as int]@);
                        assert(self.entries().contains(self.utxos@[j as int]@));
                        let pm = utxo_models(prev);
                        let km = utxo_models(kept@);
                        assert(km =~= pm.push(es[j as int]));
                        assert forall|a: int, b: int| 0 <= a < b < km.len() implies !same_key(
                            #[trigger] km[a],
                            #[trigger] km[b],
                        ) by {
                            assert(km[a] == pm[a]);
                            if b < pm.len() {
                                assert(km[b] == pm[b]);
                            } else {
                                assert(prev[a]@ == pm[a]);
                            }
                        }
                        assert forall|x: int, y: int|
                            0 <= x < kept@.len() && j + 1 <= y < es.len() implies !same_key(
                            #[trigger] kept@[x]@,
                            #[trigger] es[y],
                        ) by {
                            if x == prev.len() {
                                assert(!same_key(es[j as int], es[y]));
                            } else {
                                assert(kept@[x] == prev[x]);
                            }
                        }
                    }
                }
                j = j + 1;
            }
            proof {
                assert forall|v: UtxoModel| utxo_models(kept@).to_set().contains(v) <==> before.filter(
                    |u: UtxoModel| keeps(t@, u),
                ).contains(v) by {
                    if utxo_models(kept@).contains(v) {
                        let x = choose|x: int| 0 <= x < utxo_models(kept@).len() && utxo_models(kept@)[x] == v;
                        assert(kept@[x]@ == v);
                    }
                    if before.contains(v) && keeps(t@, v) {
                        let y = choose|y: int| 0 <= y < self.entries().len() && self.entries()[y] == v;
                        assert(self.utxos@[y]@ == v);
                    }
                }
            }
            let ghost filtered = utxo_models(kept@).to_set();
            proof {
                assert forall|v: UtxoModel| filtered.contains(v) <==> before.filter(
                    |u: UtxoModel| keeps(t@, u),
                ).contains(v) by {
                    assert(utxo_models(kept@).to_set().contains(v) == utxo_models(kept@).contains(v));
                }
            }
            let mut i: usize = 0;
            while i < t.vout.len()
                invariant
                    k < txs@.len(),
                    t == txs@[k as int],
                    i <= t.vout@.len(),
                    keys_unique(utxo_models(kept@)),
                    forall|x: int| 0 <= x < kept@.len() && (#[trigger] kept@[x])@.txid == t@.id ==> kept@[x]@.index
                        < i,
                    forall|v: UtxoModel| #[trigger] utxo_models(kept@).contains(v) <==> (filtered.contains(v)
                        || exists|ii: int| 0 <= ii < i && v == #[trigger] entry_of(t@, ii)),
                decreases t.vout@.len() - i,
            {
                let ghost prev = kept@;
                kept.push(Utxo { txid: t.id.clone(), index: i, output: t.vout[i].clone() });
                proof {
                    lemma_push_contains(prev, kept@);
                    let e = kept@[prev.len() as int]@;
                    assert(e == entry_of(t@, i as int));
                    let pm = utxo_models(prev);
                    let km = utxo_models(kept@);
                    assert(km =~= pm.push(e));
                    assert forall|a: int, b: int| 0 <= a < b < km.len() implies !same_key(
                        #[trigger] km[a],
                        #[trigger] km[b],
                    ) by {
                        assert(km[a] == pm[a]);
                        assert(prev[a]@ == pm[a]);
                        if b < pm.len() {
                            assert(km[b] == pm[b]);
                        }
                    }
                    assert forall|x: int| 0 <= x < kept@.len() && (#[trigger] kept@[x])@.txid == t@.id implies kept@[x]@.index
                        < i + 1 by {
                        if x < prev.len() {
                            assert(kept@[x] == prev[x]);
                        }
                    }
                    assert forall|v: UtxoModel| #[trigger] utxo_models(kept@).contains(v) <==> (filtered.contains(v)
                        || exists|ii: int| 0 <= ii < i + 1 && v == #[trigger] entry_of(t@, ii)) by {
                        if utxo_models(kept@).contains(v) {
                            if utxo_models(prev).contains(v) {
                                if !filtered.contains(v) {
                                    let ii = choose|ii: int| 0 <= ii < i && v == #[trigger] entry_of(t@, ii);
                                    assert(0 <= ii < i + 1 && v == entry_of(t@, ii));
                                }
                            } else {
                                assert(v == entry_of(t@, i as int));
                            }
                        }
                        if filtered.contains(v) {
                            assert(utxo_models(prev).contains(v));
                        }
                        if exists|ii: int| 0 <= ii < i + 1 && v == #[trigger] entry_of(t@, ii) {
                            let ii = choose|ii: int| 0 <= ii < i + 1 && v == #[trigger] entry_of(t@, ii);
                            if ii < i {
                                assert(utxo_models(prev).contains(v));
                            } else {
                                assert(v == e);
                            }
                        }
                    }
                }
                i = i + 1;
            }
            self.utxos = kept;
            proof {
                let ts = models(txs@);
                assert(ts.take(k + 1).drop_last() =~= ts.take(k as int));
                assert(ts.take(k + 1).last() == t@);
                assert forall|v: UtxoModel| self.index().contains(v) <==> apply_tx(before, t@).contains(v) by {
                    assert(self.index().contains(v) == utxo_models(self.utxos@).contains(v));
                    if outputs_of(t@).contains(v) {
                        let ii = choose|ii: int| 0 <= ii < t@.vout.len() && v == #[trigger] entry_of(t@, ii);
                        assert(utxo_models(self.utxos@).contains(v));
                    }
                }
                assert(self.index() =~= apply_tx(before, t@));
            }
            k = k + 1;
        }
        proof {
            assert(models(txs@).take(txs@.len() as int) =~= models(txs@));
        }
    }

    /// Sends `amount` from `from`'s address to `to`: the signed transfer and
    /// a coinbase paying `from`'s address go into a block mined on top of the
    /// tip, the block is appended, and the index is brought up to date with
    /// it. When the transfer or the block fails, nothing changes.
    pub fn send(&mut self, from: &Wallet, to: &str, amount: i32) -> (r: Result<Block, LedgerError>)
        requires
            old(self).wf(),
        ensures
            final(self).wf(),
            ({
                let out = transfer_outcome(old(self).entries(), old(self).chain().tip_transactions(), from@, to@, amount);
                match r {
                    Ok(b) => {
                        &&& out is Ok
                        &&& b@.txs == seq![
                            with_id(coinbase_body(address_of(from.public_key@), block_reward_memo(old(self).chain().tip()))),
                            out.unwrap(),
                        ]
                        &&& is_mined(b@)
                        &&& b@.prev_hash == old(self).chain().tip()
                        &&& b@.height == chain_from_tip(old(self).chain().store(), old(self).chain().tip()).len()
                        &&& !hash_used(old(self).chain().store(), old(self).chain().tip(), b@.hash)
                        &&& final(self).chain().store() == old(self).chain().store().push(b@)
                        &&& final(self).chain().tip() == b@.hash
                        &&& final(self).chain().history() == old(self).chain().history().push(b@)
                        &&& final(self).chain().transactions() == old(self).chain().transactions() + b@.txs
                        &&& final(self).index() == apply_txs(old(self).index(), b@.txs)
                        &&& forall|u: UtxoModel|
                            #[trigger] final(self).index().contains(u) && spends(b@.txs[1], u.txid, u.index)
                                ==> u.txid == b@.txs[1].id
                        &&& old(self).index() == unspent_set(old(self).chain().transactions()) && valid_history(
                            final(self).chain().transactions(),
                        ) ==> final(self).index() == unspent_set(final(self).chain().transactions())
                    },
                    Err(e) => {
                        &&& match out {
                            Err(x) => e == x,
                            Ok(m) => {
                                &&& e == LedgerError::ClockError || e == LedgerError::NonceSpaceExhausted || e
                                    == LedgerError::HashInUse
                                &&& e == LedgerError::HashInUse ==> exists|b: BlockModel|
                                    #[trigger] is_mined(b) && b.txs == seq![
                                        with_id(
                                            coinbase_body(
                                                address_of(from.public_key@),
                                                block_reward_memo(old(self).chain().tip()),
                                            ),
                                        ),
                                        m,
                                    ] && b.prev_hash == old(self).chain().tip() && b.height == chain_from_tip(
                                        old(self).chain().store(),
                                        old(self).chain().tip(),
                                    ).len() && hash_used(old(self).chain().store(), old(self).chain().tip(), b.hash)
                            },
                        }
                        &&& final(self).index() == old(self).index()
                        &&& final(self).chain().store() == old(self).chain().store()
                        &&& final(self).chain().tip() == old(self).chain().tip()
                    },
                }
            }),
    {
        let tx = Transaction::new_UTXO(from, to, amount, self)?;
        let tip = self.blockchain.get_tip();
        let memo = String::from_str("reward! ").concat(tip.as_str());
        let cbtx = Transaction::new_coinbase(from.get_address(), memo);
        let ghost txs = seq![cbtx@, tx@];
        let data = vec![cbtx, tx];
        proof {
            assert(models(data@) =~= txs);
        }
        let ghost before = *self;
        let block = self.blockchain.add_block(data)?;
        self.update(&block);
        proof {
            let bt = block@.txs;
            assert(bt.len() == 2);
            let d1 = bt.drop_last();
            assert(d1.drop_last() =~= Seq::<TxModel>::empty());
            assert(apply_txs(before.index(), d1.drop_last()) == before.index());
            assert(d1.last() == bt[0]);
            assert(apply_txs(before.index(), d1) == apply_tx(before.index(), bt[0]));
            assert(apply_txs(before.index(), bt) == apply_tx(apply_tx(before.index(), bt[0]), bt[1]));
            assert forall|u: UtxoModel|
                #[trigger] self.index().contains(u) && spends(bt[1], u.txid, u.index) implies u.txid == bt[1].id by {
                if outputs_of(bt[1]).contains(u) {
                    let i = choose|i: int| 0 <= i < bt[1].vout.len() && u == #[trigger] entry_of(bt[1], i);
                }
            }
            if before.index() == unspent_set(before.chain().transactions()) && valid_history(
                self.chain().transactions(),
            ) {
                lemma_update_after_append(before.chain(), self.chain(), block@);
            }
        }
        Ok(block)
    }

    /// First-fit selection of entries locked to `address` until their total
    /// reaches `amount`; gives the total and the outputs taken.
    pub fn find_spendable_outputs(&self, address: &str, amount: i32) -> (r: (i128, Vec<(String, usize)>))
        ensures
            self.wf() ==> forall|a: int, b: int|
                0 <= a < b < select(self.entries(), address@, amount as int, self.entries().len() as int).1.len()
                    ==> #[trigger] select(self.entries(), address@, amount as int, self.entries().len() as int).1[a]
                    != #[trigger] select(self.entries(), address@, amount as int, self.entries().len() as int).1[b],
            r.0 as int == select(self.entries(), address@, amount as int, self.entries().len() as int).0,
            r.1@.len() == select(self.entries(), address@, amount as int, self.entries().len() as int).1.len(),
            forall|x: int| 0 <= x < r.1@.len() ==> ((#[trigger] r.1@[x]).0@, r.1@[x].1 as int) == select(
                self.entries(),
                address@,
                amount as int,
                self.entries().len() as int,
            ).1[x],
    {
        let ghost es = self.entries();
        let mut total: i128 = 0;
        let mut taken: Vec<(String, usize)> = Vec::new();
        let mut j: usize = 0;
        while j < self.utxos.len()
            invariant
                j <= self.utxos@.len(),
                es == self.entries(),
                total as int == select(es, address@, amount as int, j as int).0,
                -(j as int) * 2147483648 <= total <= (j as int) * 2147483648,
                taken@.len() == select(es, address@, amount as int, j as int).1.len(),
                forall|x: int| 0 <= x < taken@.len() ==> ((#[trigger] taken@[x]).0@, taken@[x].1 as int) == select(
                    es,
                    address@,
                    amount as int,
                    j as int,
                ).1[x],
            decreases self.utxos@.len() - j,
        {
            let u = &self.utxos[j];
            proof {
                assert(es[j as int] == u@);
            }
            if u.output.can_be_unlock_with(address) && total < amount as i128 {
                total = total + u.output.value as i128;
                taken.push((u.txid.clone(), u.index));
            }
            j = j + 1;
        }
        proof {
            if self.wf() {
                lemma_select_distinct(es, address@, amount as int, es.len() as int);
            }
        }
        (total, taken)
    }

    /// The total value of the entries locked to `address`.
    pub fn balance(&self, address: &str) -> (r: i128)
        ensures
            r as int == balance_of(self.entries(), address@, self.entries().len() as int),
    {
        let ghost es = self.entries();
        let mut total: i128 = 0;
        let mut j: usize = 0;
        while j < self.utxos.len()
            invariant
                j <= self.utxos@.len(),
                es == self.entries(),
                total as int == balance_of(es, address@, j as int),
                -(j as int) * 2147483648 <= total <= (j as int) * 2147483648,
            decreases self.utxos@.len() - j,
        {
            let u = &self.utxos[j];
            proof {
                assert(es[j as int] == u@);
            }
            if u.output.can_be_unlock_with(address) {
                total = total + u.output.value as i128;
            }
            j = j + 1;
        }
        total
    }

    /// The outputs of the entries locked to `address`, in their stored order.
    pub fn find_UTXO(&self, address: &str) -> (r: Vec<TXOutput>)
        ensures
            r@.map_values(|o: TXOutput| o@) == outputs_for(self.entries(), address@, self.entries().len() as int),
    {
        let ghost es = self.entries();
        let mut out: Vec<TXOutput> = Vec::new();
        let mut j: usize = 0;
        while j < self.utxos.len()
            invariant
                j <= self.utxos@.len(),
                es == self.entries(),
                out@.map_values(|o: TXOutput| o@) == outputs_for(es, address@, j as int),
            decreases self.utxos@.len() - j,
        {
            let u = &self.utxos[j];
            proof {
                assert(es[j as int] == u@);
            }
            if u.output.can_be_unlock_with(address) {
                let ghost prev = out@;
                let o = u.output.clone();
                out.push(o);
                proof {
                    assert(out@.map_values(|o: TXOutput| o@) =~= prev.map_values(|o: TXOutput| o@).push(
                        es[j as int].output,
                    ));
                }
            }
            j = j + 1;
        }
        out
    }

    /// How many distinct transactions have entries in the index.
    pub fn count_transactions(&self) -> (r: usize)
        ensures
            r as int == distinct_txids(self.entries(), self.entries().len() as int),
    {
        let ghost es = self.entries();
        let mut count: usize = 0;
        let mut j: usize = 0;
        while j < self.utxos.len()
            invariant
                j <= self.utxos@.len(),
                es == self.entries(),
                count as int == distinct_txids(es, j as int),
                count <= j,
            decreases self.utxos@.len() - j,
        {
            let mut seen = false;
            let mut m: usize = 0;
            while m < j && !seen
                invariant
                    j < self.utxos@.len(),
                    m <= j,
                    es == self.entries(),
                    seen == exists|x: int| 0 <= x < m && #[trigger] es[x].txid == es[j as int].txid,
                decreases j - m,
            {
                if same_text(self.utxos[m].txid.as_str(), self.utxos[j].txid.as_str()) {
                    assert(es[m as int].txid == es[j as int].txid);
                    seen = true;
                }
                m = m + 1;
            }
            proof {
                if !seen {
                    assert(m == j);
                }
            }
            if !seen {
                count = count + 1;
            }
            j = j + 1;
        }
        count
    }
}

proof fn lemma_dedup_unique(s: Seq<UtxoModel>)
    ensures
        keys_unique(dedup_keys(s)),
    decreases s.len(),
{
    if s.len() > 0 {
        lemma_dedup_unique(s.drop_last());
        let d = dedup_keys(s.drop_last());
        if !has_key_in(d, s.last().txid, s.last().index) {
            let e = d.push(s.last());
            assert forall|a: int, b: int| 0 <= a < b < e.len() implies !same_key(#[trigger] e[a], #[trigger] e[b]) by {
                assert(e[a] == d[a]);
                if b < d.len() {
                    assert(e[b] == d[b]);
                }
            }
        }
    }
}

/// When no two transactions share an id, no two unspent outputs share a name.
pub proof fn lemma_distinct_ids_unique_keys(txs: Seq<TxModel>)
    requires
        forall|a: int, b: int| 0 <= a < b < txs.len() ==> #[trigger] txs[a].id != #[trigger] txs[b].id,
    ensures
        set_keys_unique(unspent_set(txs)),
{
    assert forall|u: UtxoModel, v: UtxoModel|
        unspent_set(txs).contains(u) && unspent_set(txs).contains(v) && same_key(u, v) implies u == v by {
        let (k1, i1) = choose|k: int, i: int|
            0 <= k < txs.len() && 0 <= i < txs[k].vout.len() && u == #[trigger] entry_of(txs[k], i)
                && !spent_in(txs, txs[k].id, i);
        let (k2, i2) = choose|k: int, i: int|
            0 <= k < txs.len() && 0 <= i < txs[k].vout.len() && v == #[trigger] entry_of(txs[k], i)
                && !spent_in(txs, txs[k].id, i);
        if k1 < k2 {
            assert(txs[k1].id != txs[k2].id);
        } else if k2 < k1 {
            assert(txs[k2].id != txs[k1].id);
        }
    }
}

proof fn lemma_select_distinct(entries: Seq<UtxoModel>, address: Seq<char>, amount: int, n: int)
    requires
        keys_unique(entries),
        n <= entries.len(),
    ensures
        forall|a: int, b: int|
            0 <= a < b < select(entries, address, amount, n).1.len() ==> #[trigger] select(
                entries,
                address,
                amount,
                n,
            ).1[a] != #[trigger] select(entries, address, amount, n).1[b],
    decreases n,
{
    if n > 0 {
        lemma_select_distinct(entries, address, amount, n - 1);
        lemma_select_from_entries(entries, address, amount, n - 1);
        let prev = select(entries, address, amount, n - 1).1;
        let now = select(entries, address, amount, n).1;
        assert forall|a: int, b: int| 0 <= a < b < now.len() implies #[trigger] now[a] != #[trigger] now[b] by {
            assert(now[a] == prev[a]);
            if b < prev.len() {
                assert(now[b] == prev[b]);
            } else {
                let y = choose|y: int| 0 <= y < n - 1 && (entries[y].txid, entries[y].index) == #[trigger] prev[a];
                assert(now[b] == (entries[n - 1].txid, entries[n - 1].index));
                assert(!same_key(entries[y], entries[n - 1]));
            }
        }
    }
}

proof fn lemma_push_contains(prev: Seq<Utxo>, now: Seq<Utxo>)
    requires
        now.len() == prev.len() + 1,
        forall|x: int| 0 <= x < prev.len() ==> now[x] == prev[x],
    ensures
        forall|v: UtxoModel| utxo_models(prev).contains(v) ==> utxo_models(now).contains(v),
        utxo_models(now).contains(now[prev.len() as int]@),
        forall|v: UtxoModel| #[trigger] utxo_models(now).contains(v) ==> utxo_models(prev).contains(v) || v
            == now[prev.len() as int]@,
{
    assert forall|v: UtxoModel| utxo_models(prev).contains(v) implies utxo_models(now).contains(v) by {
        let x = choose|x: int| 0 <= x < utxo_models(prev).len() && utxo_models(prev)[x] == v;
        assert(utxo_models(now)[x] == v);
    }
    assert(utxo_models(now)[prev.len() as int] == now[prev.len() as int]@);
    assert forall|v: UtxoModel| #[trigger] utxo_models(now).contains(v) implies utxo_models(prev).contains(v) || v
        == now[prev.len() as int]@ by {
        let x = choose|x: int| 0 <= x < utxo_models(now).len() && utxo_models(now)[x] == v;
        if x < prev.len() {
            assert(utxo_models(prev)[x] == v);
        }
    }
}

/// An unsigned transfer spending the `taken` outputs with `pub_key`: `amount`
/// to `to`, and what the taken outputs hold beyond it back to `change_to`.
pub open spec fn transfer_body(
    taken: Seq<(Seq<char>, int)>,
    pub_key: Seq<u8>,
    to: Seq<char>,
    amount: i32,
    change_to: Seq<char>,
    total: int,
) -> TxModel {
    TxModel {
        id: Seq::empty(),
        vin: Seq::new(
            taken.len(),
            |x: int|
                InputModel {
                    txid: taken[x].0,
                    vout: taken[x].1 as i32,
                    signature: Seq::empty(),
                    pub_key,
                },
        ),
        vout: if total > amount {
            seq![
                OutputModel { value: amount, key: to },
                OutputModel { value: (total - amount) as i32, key: change_to },
            ]
        } else {
            seq![OutputModel { value: amount, key: to }]
        },
    }
}

/// A transaction after signing: a coinbase is left as it is.
pub open spec fn signed_with(t: TxModel, txs: Seq<TxModel>, secret_key: Seq<u8>) -> TxModel {
    if is_coinbase_tx(t) {
        t
    } else {
        signed(t, txs, secret_key)
    }
}

/// What a transfer of `amount` from the wallet `from` to `to` comes to,
/// over an index's entries and a chain's transactions as met from the tip:
/// the first-fit selection of `from`'s outputs is spent, `amount` goes to
/// `to` and the rest back to `from`'s address, and each input is signed.
pub open spec fn transfer_outcome(
    entries: Seq<UtxoModel>,
    history: Seq<TxModel>,
    from: WalletModel,
    to: Seq<char>,
    amount: i32,
) -> Result<TxModel, LedgerError> {
    let from_addr = address_of(from.public_key);
    let sel = select(entries, from_addr, amount as int, entries.len() as int);
    let body = with_id(transfer_body(sel.1, from.public_key, to, amount, from_addr, sel.0));
    if amount <= 0 {
        Err(LedgerError::InvalidAmount)
    } else if sel.0 < amount {
        Err(LedgerError::InsufficientFunds(sel.0 as i128))
    } else if from.secret_key.len() < 64 {
        Err(LedgerError::InvalidKey)
    } else if !is_coinbase_tx(body) && !all_referenced(body, history) {
        Err(LedgerError::MissingReferencedTransaction)
    } else {
        Ok(signed_with(body, history, from.secret_key))
    }
}

/// The memo of the coinbase that a transfer's block carries: it names the
/// block it builds on, so that no two such coinbases share an id.
pub open spec fn block_reward_memo(tip: Seq<char>) -> Seq<char> {
    "reward! "@ + tip
}

/// The first-fit total stays below `amount` plus the largest possible value.
proof fn lemma_select_bound(entries: Seq<UtxoModel>, address: Seq<char>, amount: int, n: int)
    requires
        amount > 0,
        n <= entries.len(),
    ensures
        select(entries, address, amount, n).0 < amount + 2147483648,
    decreases n,
{
    if n > 0 {
        lemma_select_bound(entries, address, amount, n - 1);
    }
}

impl Transaction {
    /// A transfer of `amount` from `from`'s address to `to`, spending the
    /// first outputs of the index that reach the amount, with the remainder
    /// returned to `from`'s address, identified and signed with `from`'s key.
    pub fn new_UTXO(from: &Wallet, to: &str, amount: i32, utxo: &UTXOSet) -> (r: Result<Transaction, LedgerError>)
        ensures
            match transfer_outcome(utxo.entries(), utxo.chain().tip_transactions(), from@, to@, amount) {
                Ok(m) => r is Ok && r.unwrap()@ == m,
                Err(e) => r == Err::<Transaction, LedgerError>(e),
            },
            utxo.wf() ==> ({
                let sel = select(
                    utxo.entries(),
                    address_of(from.public_key@),
                    amount as int,
                    utxo.entries().len() as int,
                ).1;
                forall|a: int, b: int| 0 <= a < b < sel.len() ==> #[trigger] sel[a] != #[trigger] sel[b]
            }),
    {
        proof {
            if utxo.wf() {
                lemma_select_distinct(
                    utxo.entries(),
                    address_of(from.public_key@),
                    amount as int,
                    utxo.entries().len() as int,
                );
            }
        }
        if amount <= 0 {
            return Err(LedgerError::InvalidAmount);
        }
        let from_addr = from.get_address();
        let (total, taken) = utxo.find_spendable_outputs(from_addr.as_str(), amount);
        let ghost sel = select(utxo.entries(), from_addr@, amount as int, utxo.entries().len() as int);
        if total < amount as i128 {
            return Err(LedgerError::InsufficientFunds(total));
        }
        if from.secret_key.len() < 64 {
            return Err(LedgerError::InvalidKey);
        }
        let mut vin: Vec<TXInput> = Vec::new();
        let mut x: usize = 0;
        while x < taken.len()
            invariant
                x <= taken@.len(),
                vin@.len() == x,
                taken@.len() == sel.1.len(),
                forall|y: int| 0 <= y < taken@.len() ==> ((#[trigger] taken@[y]).0@, taken@[y].1 as int) == sel.1[y],
                forall|y: int| 0 <= y < x ==> #[trigger] vin@[y]@ == transfer_body(
                    sel.1,
                    from.public_key@,
                    to@,
                    amount,
                    from_addr@,
                    sel.0,
                ).vin[y],
            decreases taken@.len() - x,
        {
            vin.push(
                TXInput {
                    txid: taken[x].0.clone(),
                    vout: taken[x].1 as i32,
                    signature: Vec::new(),
                    pub_key: from.public_key.clone(),
                },
            );
            x = x + 1;
        }
        let mut vout: Vec<TXOutput> = Vec::new();
        vout.push(TXOutput { value: amount, script_pub_key: String::from_str(to) });
        if total > amount as i128 {
            proof {
                lemma_select_bound(utxo.entries(), from_addr@, amount as int, utxo.entries().len() as int);
            }
            let change = (total - amount as i128) as i32;
            vout.push(TXOutput { value: change, script_pub_key: from_addr });
        }
        let mut tx = Transaction { id: String::new(), vin, vout };
        proof {
            let b = transfer_body(sel.1, from.public_key@, to@, amount, from_addr@, sel.0);
            assert(tx@.vin =~= b.vin);
            assert(tx@.vout =~= b.vout);
        }
        tx.set_id();
        utxo.blockchain.sign_transaction(&mut tx, from.secret_key.as_slice())?;
        Ok(tx)
    }
}

proof fn lemma_apply_tx_extends_unspent(txs: Seq<TxModel>, t: TxModel)
    requires
        valid_history(txs.push(t)),
    ensures
        apply_tx(unspent_set(txs), t) == unspent_set(txs.push(t)),
{
    let all = txs.push(t);
    let n = txs.len() as int;
    assert(all[n] == t);
    assert forall|u: UtxoModel| apply_tx(unspent_set(txs), t).contains(u) <==> unspent_set(all).contains(u) by {
        if unspent_set(txs).contains(u) && keeps(t, u) {
            let (k, i) = choose|k: int, i: int|
                0 <= k < txs.len() && 0 <= i < txs[k].vout.len() && u == #[trigger] entry_of(txs[k], i)
                    && !spent_in(txs, txs[k].id, i);
            assert(all[k] == txs[k]);
            if spent_in(all, all[k].id, i) {
                let kk = choose|kk: int| 0 <= kk < all.len() && #[trigger] spends(all[kk], all[k].id, i);
                if kk < n {
                    assert(all[kk] == txs[kk]);
                    assert(spent_in(txs, txs[k].id, i));
                }
            }
            assert(u == entry_of(all[k], i));
        }
        if outputs_of(t).contains(u) {
            let i = choose|i: int| 0 <= i < t.vout.len() && u == #[trigger] entry_of(t, i);
            if spent_in(all, t.id, i) {
                let kk = choose|kk: int| 0 <= kk < all.len() && #[trigger] spends(all[kk], t.id, i);
                assert(spends(all[kk], all[n].id, i));
            }
            assert(u == entry_of(all[n], i));
        }
        if unspent_set(all).contains(u) {
            let (k, i) = choose|k: int, i: int|
                0 <= k < all.len() && 0 <= i < all[k].vout.len() && u == #[trigger] entry_of(all[k], i)
                    && !spent_in(all, all[k].id, i);
            if k == n {
                assert(u == entry_of(t, i));
                assert(outputs_of(t).contains(u));
            } else {
                assert(all[k] == txs[k]);
                if spent_in(txs, txs[k].id, i) {
                    let kk = choose|kk: int| 0 <= kk < txs.len() && #[trigger] spends(txs[kk], txs[k].id, i);
                    assert(all[kk] == txs[kk]);
                    assert(spends(all[kk], all[k].id, i));
                }
                assert(u == entry_of(txs[k], i));
                assert(unspent_set(txs).contains(u));
                if spends(t, u.txid, u.index) {
                    assert(spends(all[n], all[k].id, i));
                }
                assert(all[k].id != all[n].id);
            }
        }
    }
    assert(apply_tx(unspent_set(txs), t) =~= unspent_set(all));
}

/// Replaying the transactions of a valid history one by one, from an empty
/// index, gives exactly the unspent outputs that a full scan finds.
pub proof fn lemma_replay_txs_matches_scan(txs: Seq<TxModel>)
    requires
        valid_history(txs),
    ensures
        apply_txs(Set::empty(), txs) == unspent_set(txs),
    decreases txs.len(),
{
    if txs.len() == 0 {
        assert(unspent_set(txs) =~= Set::<UtxoModel>::empty());
    } else {
        let p = txs.drop_last();
        assert(p =~= txs.take(txs.len() - 1));
        lemma_valid_prefix(txs, txs.len() - 1);
        lemma_replay_txs_matches_scan(p);
        assert(p.push(txs.last()) =~= txs);
        lemma_apply_tx_extends_unspent(p, txs.last());
    }
}

proof fn lemma_apply_txs_concat(s: Set<UtxoModel>, a: Seq<TxModel>, b: Seq<TxModel>)
    ensures
        apply_txs(s, a + b) == apply_txs(apply_txs(s, a), b),
    decreases b.len(),
{
    if b.len() == 0 {
        assert(a + b =~= a);
    } else {
        lemma_apply_txs_concat(s, a, b.drop_last());
        assert((a + b).drop_last() =~= a + b.drop_last());
        assert((a + b).last() == b.last());
    }
}

proof fn lemma_replay_blocks_flatten(s: Set<UtxoModel>, blocks: Seq<BlockModel>)
    ensures
        replay_blocks(s, blocks) == apply_txs(s, flatten(blocks)),
    decreases blocks.len(),
{
    if blocks.len() > 0 {
        lemma_replay_blocks_flatten(s, blocks.drop_last());
        lemma_apply_txs_concat(s, flatten(blocks.drop_last()), blocks.last().txs);
    }
}

/// Keeping the index current with `update`, block by block from an empty
/// index, ends with the same entries as a `reindex` of the chain, provided
/// no two transactions share an id and every input spends an output of an
/// earlier transaction.
pub proof fn lemma_update_replay_equals_reindex(blocks: Seq<BlockModel>)
    requires
        valid_history(flatten(blocks)),
    ensures
        replay_blocks(Set::empty(), blocks) == unspent_set(flatten(blocks)),
{
    lemma_replay_blocks_flatten(Set::empty(), blocks);
    lemma_replay_txs_matches_scan(flatten(blocks));
}

proof fn lemma_spent_stays_out(s: Set<UtxoModel>, txs: Seq<TxModel>, k: int, txid: Seq<char>, index: int)
    requires
        0 <= k < txs.len(),
        spends(txs[k], txid, index),
        forall|j: int| k <= j < txs.len() ==> #[trigger] txs[j].id != txid,
    ensures
        forall|u: UtxoModel| #[trigger] apply_txs(s, txs).contains(u) ==> !(u.txid == txid && u.index == index),
    decreases txs.len(),
{
    let p = txs.drop_last();
    let t = txs.last();
    assert(t == txs[txs.len() - 1]);
    assert(t.id != txid);
    if txs.len() - 1 > k {
        assert(p[k] == txs[k]);
        assert forall|j: int| k <= j < p.len() implies #[trigger] p[j].id != txid by {
            assert(p[j] == txs[j]);
        }
        lemma_spent_stays_out(s, p, k, txid, index);
    }
    assert(apply_txs(s, txs) == apply_tx(apply_txs(s, p), t));
    assert forall|u: UtxoModel| #[trigger] apply_txs(s, txs).contains(u) implies !(u.txid == txid && u.index == index) by {
        if outputs_of(t).contains(u) {
            let i = choose|i: int| 0 <= i < t.vout.len() && u == #[trigger] entry_of(t, i);
        } else {
            assert(apply_txs(s, p).contains(u) && !spends(t, u.txid, u.index));
            if txs.len() - 1 == k {
                assert(t == txs[k]);
            }
        }
    }
}

proof fn lemma_select_from_entries(entries: Seq<UtxoModel>, address: Seq<char>, amount: int, n: int)
    requires
        n <= entries.len(),
    ensures
        forall|x: int| 0 <= x < select(entries, address, amount, n).1.len() ==> exists|y: int|
            0 <= y < n && (entries[y].txid, entries[y].index) == #[trigger] select(entries, address, amount, n).1[x],
    decreases n,
{
    if n > 0 {
        lemma_select_from_entries(entries, address, amount, n - 1);
        let prev = select(entries, address, amount, n - 1).1;
        let now = select(entries, address, amount, n).1;
        assert forall|x: int| 0 <= x < now.len() implies exists|y: int|
            0 <= y < n && (entries[y].txid, entries[y].index) == #[trigger] now[x] by {
            if x < prev.len() {
                assert(now[x] == prev[x]);
                let y = choose|y: int| 0 <= y < n - 1 && (entries[y].txid, entries[y].index) == #[trigger] prev[x];
            } else {
                assert(now[x] == (entries[n - 1].txid, entries[n - 1].index));
            }
        }
    }
}

/// Once a committed transaction spends output `index` of `txid`, and no
/// transaction from then on carries that id again, the first-fit selection
/// over any index that replays those transactions never picks that output.
pub proof fn lemma_spent_output_never_selected(
    s: Set<UtxoModel>,
    txs: Seq<TxModel>,
    k: int,
    txid: Seq<char>,
    index: int,
    entries: Seq<UtxoModel>,
    address: Seq<char>,
    amount: int,
)
    requires
        0 <= k < txs.len(),
        spends(txs[k], txid, index),
        forall|j: int| k <= j < txs.len() ==> #[trigger] txs[j].id != txid,
        entries.to_set() == apply_txs(s, txs),
    ensures
        forall|x: int| 0 <= x < select(entries, address, amount, entries.len() as int).1.len()
            ==> #[trigger] select(entries, address, amount, entries.len() as int).1[x] != (txid, index),
{
    lemma_spent_stays_out(s, txs, k, txid, index);
    lemma_select_from_entries(entries, address, amount, entries.len() as int);
    let sel = select(entries, address, amount, entries.len() as int).1;
    assert forall|x: int| 0 <= x < sel.len() implies #[trigger] sel[x] != (txid, index) by {
        let y = choose|y: int| 0 <= y < entries.len() && (entries[y].txid, entries[y].index) == #[trigger] sel[x];
        assert(entries.contains(entries[y]));
        assert(apply_txs(s, txs).contains(entries[y]));
    }
}

proof fn lemma_valid_prefix(txs: Seq<TxModel>, m: int)
    requires
        valid_history(txs),
        0 <= m <= txs.len(),
    ensures
        valid_history(txs.take(m)),
{
    let p = txs.take(m);
    assert forall|a: int, b: int| 0 <= a < b < p.len() implies #[trigger] p[a].id != #[trigger] p[b].id by {
        assert(p[a] == txs[a] && p[b] == txs[b]);
    }
    assert forall|k: int, j: int, i: int|
        0 <= k < p.len() && 0 <= j < p.len() && #[trigger] spends(p[k], p[j].id, i) implies j < k by {
        assert(p[k] == txs[k] && p[j] == txs[j]);
    }
}

proof fn lemma_extend_unspent(a: Seq<TxModel>, c: Seq<TxModel>)
    requires
        valid_history(a + c),
    ensures
        apply_txs(unspent_set(a), c) == unspent_set(a + c),
    decreases c.len(),
{
    if c.len() == 0 {
        assert(a + c =~= a);
    } else {
        let d = c.drop_last();
        assert((a + c).take((a.len() + d.len()) as int) =~= a + d);
        lemma_valid_prefix(a + c, (a.len() + d.len()) as int);
        lemma_extend_unspent(a, d);
        assert((a + d).push(c.last()) =~= a + c);
        lemma_apply_tx_extends_unspent(a + d, c.last());
    }
}

/// When a block is appended on top of the tip (a block whose hash is new to
/// the store), the chain's transactions grow by the block's, and updating an
/// index that a full scan gave with the block gives what a full scan of the
/// longer chain gives, provided no two transactions share an id and every
/// input spends an output of an earlier transaction.
pub proof fn lemma_update_after_append(old: Blockchain, new: Blockchain, b: BlockModel)
    requires
        new.store() == old.store().push(b),
        new.tip() == b.hash,
        b.prev_hash == old.tip(),
        old.tip() != b.hash,
        forall|k: int|
            0 <= k < old.store().len() ==> (#[trigger] old.store()[k]).hash != b.hash && old.store()[k].prev_hash
                != b.hash,
        valid_history(old.transactions() + b.txs),
    ensures
        new.transactions() == old.transactions() + b.txs,
        apply_txs(unspent_set(old.transactions()), b.txs) == unspent_set(new.transactions()),
{
    lemma_history_after_append(old.store(), old.tip(), b);
    lemma_extend_unspent(old.transactions(), b.txs);
}

} // verus!
