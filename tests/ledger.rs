use blockchain_rust::block::{Block, TARGET_HEX};
use blockchain_rust::blockchain::Blockchain;
use blockchain_rust::errors::LedgerError;
use blockchain_rust::transaction::{Transaction, SUBSIDY};
use blockchain_rust::utxoset::UTXOSet;
use blockchain_rust::wallet::Wallet;

fn chain_for(address: &str) -> UTXOSet {
    let bc = Blockchain::create_blockchain(address.to_string()).unwrap();
    let mut utxo = UTXOSet::new(bc, Vec::new());
    utxo.reindex();
    utxo
}

fn send(utxo: &mut UTXOSet, from: &Wallet, to: &str, amount: i32) -> Result<Block, LedgerError> {
    utxo.send(from, to, amount)
}

fn sorted_entries(utxo: &UTXOSet) -> Vec<(String, usize, i32, String)> {
    let mut v: Vec<(String, usize, i32, String)> = utxo
        .utxos()
        .iter()
        .map(|u| (u.txid.clone(), u.index, u.output.value, u.output.script_pub_key.clone()))
        .collect();
    v.sort();
    v
}

#[test]
fn test_blockchain() {
    let b = Blockchain::create_blockchain(String::from("someone")).unwrap();
    let mut it = b.iter();
    while let Some(item) = it.next() {
        println!("{:?}", item)
    }
    println!("{:?}", b);
}

#[test]
fn mined_block_hash_meets_target() {
    let cb = Transaction::new_coinbase(String::from("miner"), String::new());
    let b = Block::new_block(vec![cb], String::from("00ab"), 3).unwrap();
    let h = b.get_hash();
    assert_eq!(h.len(), 64);
    assert!(h.starts_with(&"0".repeat(TARGET_HEX)));
    assert!(b.validate());
    assert_eq!(b.get_prev_hash(), "00ab");
    assert_eq!(b.get_height(), 3);
}

#[test]
fn mutated_block_does_not_meet_target() {
    let cb = Transaction::new_coinbase(String::from("miner"), String::new());
    let b = Block::mine(vec![cb.clone()], String::new(), 0, 1_700_000_000_000).unwrap();
    let txs = b.get_transaction().clone();
    let other_nonce = Block::restore(
        b.get_nonce() + 1,
        0,
        b.get_timestamp(),
        b.get_hash(),
        String::new(),
        txs.clone(),
    );
    assert!(other_nonce.is_none());
    let other_time = Block::restore(
        b.get_nonce(),
        0,
        b.get_timestamp() + 1,
        b.get_hash(),
        String::new(),
        txs.clone(),
    );
    assert!(other_time.is_none());
    let cb2 = Transaction::new_coinbase(String::from("thief"), String::new());
    let other_txs = Block::restore(b.get_nonce(), 0, b.get_timestamp(), b.get_hash(), String::new(), vec![cb2]);
    assert!(other_txs.is_none());
    let same = Block::restore(b.get_nonce(), 0, b.get_timestamp(), b.get_hash(), String::new(), txs);
    assert!(same.is_some());
}

#[test]
fn mining_is_deterministic_at_a_fixed_time() {
    let cb = Transaction::new_coinbase(String::from("miner"), String::from("memo"));
    let a = Block::mine(vec![cb.clone()], String::from("prev"), 1, 42).unwrap();
    let b = Block::mine(vec![cb], String::from("prev"), 1, 42).unwrap();
    assert_eq!(a.get_hash(), b.get_hash());
    assert_eq!(a.get_nonce(), b.get_nonce());
}

#[test]
fn genesis_block_and_fresh_chain() {
    let bc = Blockchain::create_blockchain(String::from("alice")).unwrap();
    let mut it = bc.iter();
    let g = it.next().unwrap();
    assert!(it.next().is_none());
    assert_eq!(g.get_prev_hash(), "");
    assert_eq!(g.get_height(), 0);
    assert_eq!(g.get_hash(), bc.get_tip());
    assert_eq!(g.get_transaction().len(), 1);
    assert!(g.get_transaction()[0].is_coinbase());
    assert_eq!(bc.blocks_from_tip().len(), 1);
}

#[test]
fn coinbase_issuance() {
    let tx = Transaction::new_coinbase(String::from("addr"), String::new());
    assert!(tx.is_coinbase());
    assert_eq!(tx.vout.len(), 1);
    assert_eq!(tx.vout[0].value, SUBSIDY);
    assert_eq!(tx.vout[0].script_pub_key, "addr");
    assert_eq!(tx.vin[0].pub_key, b"Reward to 'addr'".to_vec());
    assert_eq!(tx.vin[0].vout, -1);
    assert_eq!(tx.id, tx.hash());
    assert_eq!(tx.id.len(), 64);
    assert_eq!(tx.verify(&Vec::new()), Ok(true));
    let with_memo = Transaction::new_coinbase(String::from("addr"), String::from("hello"));
    assert_eq!(with_memo.vin[0].pub_key, b"hello".to_vec());
    assert_ne!(with_memo.id, tx.id);
}

#[test]
fn end_to_end_balances() {
    let a = Wallet::new().unwrap();
    let b = Wallet::new().unwrap();
    let c = Wallet::new().unwrap();
    let addr_a = a.get_address();
    let addr_b = b.get_address();
    let addr_c = c.get_address();
    let mut utxo = chain_for(&addr_a);
    assert_eq!(utxo.balance(&addr_a), 10);
    assert_eq!(utxo.balance(&addr_b), 0);
    send(&mut utxo, &a, &addr_b, 4).unwrap();
    assert_eq!(utxo.balance(&addr_a), 16);
    assert_eq!(utxo.balance(&addr_b), 4);
    let err = send(&mut utxo, &a, &addr_c, 1000).unwrap_err();
    assert_eq!(err, LedgerError::InsufficientFunds(16));
    assert_eq!(utxo.balance(&addr_a), 16);
    assert_eq!(utxo.balance(&addr_b), 4);
    assert_eq!(utxo.balance(&addr_c), 0);
    assert_eq!(utxo.blockchain.blocks_from_tip().len(), 2);
    assert_eq!(utxo.blockchain.blocks_from_tip()[0].get_height(), 1);
}

#[test]
fn update_matches_reindex() {
    let a = Wallet::new().unwrap();
    let b = Wallet::new().unwrap();
    let addr_a = a.get_address();
    let addr_b = b.get_address();
    let mut utxo = chain_for(&addr_a);
    send(&mut utxo, &a, &addr_b, 4).unwrap();
    send(&mut utxo, &b, &addr_a, 3).unwrap();
    let updated = sorted_entries(&utxo);
    utxo.reindex();
    let rebuilt = sorted_entries(&utxo);
    assert_eq!(updated, rebuilt);
    assert_eq!(utxo.balance(&addr_a), 6 + 10 + 3);
    assert_eq!(utxo.balance(&addr_b), 1 + 10);
}

#[test]
fn spent_output_is_not_spendable_again() {
    let a = Wallet::new().unwrap();
    let b = Wallet::new().unwrap();
    let addr_a = a.get_address();
    let addr_b = b.get_address();
    let mut utxo = chain_for(&addr_a);
    let (_, before) = utxo.find_spendable_outputs(&addr_a, 1);
    assert_eq!(before.len(), 1);
    let spent = before[0].clone();
    send(&mut utxo, &a, &addr_b, 4).unwrap();
    let (total, after) = utxo.find_spendable_outputs(&addr_a, 1000);
    assert_eq!(total, 16);
    assert!(!after.contains(&spent));
    assert_eq!(utxo.blockchain.find_UTXO().iter().filter(|u| u.txid == spent.0).count(), 0);
}

#[test]
fn signature_tamper_is_rejected() {
    let a = Wallet::new().unwrap();
    let b = Wallet::new().unwrap();
    let addr_a = a.get_address();
    let utxo = chain_for(&addr_a);
    let tx = Transaction::new_UTXO(&a, &b.get_address(), 4, &utxo).unwrap();
    assert_eq!(utxo.blockchain.verify_transaction(&tx), Ok(true));
    let mut tampered = tx.clone();
    tampered.vin[0].signature[5] ^= 1;
    assert_eq!(utxo.blockchain.verify_transaction(&tampered), Ok(false));
    let mut other_key = tx.clone();
    other_key.vin[0].pub_key = b.public_key.clone();
    assert_eq!(utxo.blockchain.verify_transaction(&other_key), Ok(false));
    let mut cb = Transaction::new_coinbase(addr_a.clone(), String::new());
    cb.vin[0].pub_key[0] ^= 1;
    cb.vin[0].signature = vec![1, 2, 3];
    assert!(cb.is_coinbase());
    assert_eq!(utxo.blockchain.verify_transaction(&cb), Ok(true));
}

#[test]
fn transfer_shape() {
    let a = Wallet::new().unwrap();
    let addr_a = a.get_address();
    let utxo = chain_for(&addr_a);
    let tx = Transaction::new_UTXO(&a, "bob", 4, &utxo).unwrap();
    assert!(!tx.is_coinbase());
    assert_eq!(tx.vin.len(), 1);
    assert_eq!(tx.vin[0].vout, 0);
    assert_eq!(tx.vin[0].pub_key, a.public_key);
    assert_eq!(tx.vin[0].signature.len(), 64);
    assert_eq!(tx.vout.len(), 2);
    assert_eq!(tx.vout[0].value, 4);
    assert_eq!(tx.vout[0].script_pub_key, "bob");
    assert_eq!(tx.vout[1].value, 6);
    assert_eq!(tx.vout[1].script_pub_key, addr_a);
    assert_eq!(tx.id, tx.hash());
    let exact = Transaction::new_UTXO(&a, "bob", 10, &utxo).unwrap();
    assert_eq!(exact.vout.len(), 1);
    assert!(tx.vin[0].can_unlock_output_with(&addr_a));
    assert!(!tx.vin[0].can_unlock_output_with("bob"));
    assert!(tx.vout[0].can_be_unlock_with("bob"));
    assert!(!tx.vout[0].can_be_unlock_with("bo"));
}

#[test]
fn transfer_errors() {
    let a = Wallet::new().unwrap();
    let addr_a = a.get_address();
    let utxo = chain_for(&addr_a);
    assert_eq!(Transaction::new_UTXO(&a, "bob", 0, &utxo).unwrap_err(), LedgerError::InvalidAmount);
    assert_eq!(Transaction::new_UTXO(&a, "bob", 11, &utxo).unwrap_err(), LedgerError::InsufficientFunds(10));
    let short = Wallet { secret_key: vec![1, 2, 3], public_key: a.public_key.clone() };
    assert_eq!(Transaction::new_UTXO(&short, "bob", 4, &utxo).unwrap_err(), LedgerError::InvalidKey);
    let elsewhere = chain_for("somebody else");
    let mut borrowed = UTXOSet::new(elsewhere.blockchain, utxo.utxos().clone());
    borrowed.blockchain = Blockchain::create_blockchain(String::from("third")).unwrap();
    assert_eq!(
        Transaction::new_UTXO(&a, "bob", 4, &borrowed).unwrap_err(),
        LedgerError::MissingReferencedTransaction
    );
}

#[test]
fn find_transaction_by_id() {
    let bc = Blockchain::create_blockchain(String::from("alice")).unwrap();
    let g = bc.blocks_from_tip()[0].clone();
    let id = g.get_transaction()[0].id.clone();
    assert_eq!(bc.find_transaction(&id).unwrap().id, id);
    assert_eq!(bc.find_transaction("nope").unwrap_err(), LedgerError::TransactionNotFound);
    assert_eq!(bc.find_unspent_transaction("alice").len(), 1);
    assert_eq!(bc.find_unspent_transaction("bob").len(), 0);
}

#[test]
fn index_counts_and_outputs() {
    let a = Wallet::new().unwrap();
    let b = Wallet::new().unwrap();
    let addr_a = a.get_address();
    let addr_b = b.get_address();
    let mut utxo = chain_for(&addr_a);
    assert_eq!(utxo.count_transactions(), 1);
    send(&mut utxo, &a, &addr_b, 4).unwrap();
    assert_eq!(utxo.count_transactions(), 2);
    assert_eq!(utxo.find_UTXO(&addr_b).len(), 1);
    assert_eq!(utxo.find_UTXO(&addr_b)[0].value, 4);
    assert_eq!(utxo.find_UTXO(&addr_a).len(), 2);
}

#[test]
fn chain_restored_from_stored_blocks() {
    let a = Wallet::new().unwrap();
    let b = Wallet::new().unwrap();
    let mut utxo = chain_for(&a.get_address());
    send(&mut utxo, &a, &b.get_address(), 2).unwrap();
    let stored = utxo.blockchain.stored_blocks().clone();
    let tip = utxo.blockchain.get_tip();
    let again = Blockchain::new(stored.clone(), tip);
    assert_eq!(again.blocks_from_tip().len(), 2);
    let genesis_only = Blockchain::new(stored.clone(), stored[0].get_hash());
    assert_eq!(genesis_only.blocks_from_tip().len(), 1);
    let missing = Blockchain::new(stored, String::from("unknown"));
    assert_eq!(missing.blocks_from_tip().len(), 0);
    assert_eq!(again.blocks_from_genesis()[0].get_height(), 0);
    assert_eq!(again.history_transactions().len(), 3);
}

#[test]
fn sign_and_verify_edges() {
    let a = Wallet::new().unwrap();
    let addr_a = a.get_address();
    let utxo = chain_for(&addr_a);
    let history = utxo.blockchain.history_transactions();
    let mut cb = Transaction::new_coinbase(addr_a.clone(), String::new());
    let before = format!("{:?}", cb);
    assert_eq!(cb.sign(&a.secret_key, &history), Ok(()));
    assert_eq!(format!("{:?}", cb), before);
    let mut tx = Transaction::new_UTXO(&a, "bob", 4, &utxo).unwrap();
    assert_eq!(tx.verify(&history), Ok(true));
    tx.vin[0].txid = String::from("unknown");
    let before = format!("{:?}", tx);
    assert_eq!(tx.sign(&a.secret_key, &history), Err(LedgerError::MissingReferencedTransaction));
    assert_eq!(format!("{:?}", tx), before);
    assert_eq!(tx.verify(&history), Err(LedgerError::MissingReferencedTransaction));
    let empty = Transaction { id: String::new(), vin: Vec::new(), vout: Vec::new() };
    assert_eq!(empty.verify(&history), Ok(false));
}

#[test]
fn repeated_sends_keep_every_reward() {
    let a = Wallet::new().unwrap();
    let b = Wallet::new().unwrap();
    let addr_a = a.get_address();
    let addr_b = b.get_address();
    let mut utxo = chain_for(&addr_a);
    let first = send(&mut utxo, &a, &addr_b, 1).unwrap();
    let second = send(&mut utxo, &a, &addr_b, 1).unwrap();
    assert_ne!(first.get_transaction()[0].id, second.get_transaction()[0].id);
    assert_eq!(utxo.balance(&addr_a), 10 - 2 + 10 + 10);
    assert_eq!(utxo.balance(&addr_b), 2);
    let updated = sorted_entries(&utxo);
    utxo.reindex();
    assert_eq!(sorted_entries(&utxo), updated);
    assert_eq!(second.get_prev_hash(), first.get_hash());
    assert_eq!(second.get_height(), 2);
}

#[test]
fn index_names_each_output_once() {
    let a = Wallet::new().unwrap();
    let utxo = chain_for(&a.get_address());
    let mut doubled = utxo.utxos().clone();
    doubled.extend(utxo.utxos().clone());
    assert_eq!(doubled.len(), 2);
    let bc = Blockchain::create_blockchain(String::from("other")).unwrap();
    let rebuilt = UTXOSet::new(bc, doubled);
    assert_eq!(rebuilt.utxos().len(), 1);
    assert_eq!(rebuilt.balance(&a.get_address()), 10);
}

#[test]
fn update_replaces_entries_under_a_repeated_id() {
    let a = Wallet::new().unwrap();
    let addr_a = a.get_address();
    let mut utxo = chain_for(&addr_a);
    let g = utxo.blockchain.blocks_from_tip()[0].clone();
    let mut same_id = g.get_transaction()[0].clone();
    same_id.vout[0].value = 3;
    let b = Block::mine(vec![same_id], g.get_hash(), 1, 5).unwrap();
    utxo.update(&b);
    assert_eq!(utxo.utxos().len(), 1);
    assert_eq!(utxo.balance(&addr_a), 3);
}

#[test]
fn find_transaction_prefers_the_tip() {
    let bc = Blockchain::create_blockchain(String::from("alice")).unwrap();
    let g = bc.blocks_from_tip()[0].clone();
    let mut same_id = g.get_transaction()[0].clone();
    same_id.vout[0].value = 7;
    let b = Block::mine(vec![same_id.clone()], g.get_hash(), 1, 9).unwrap();
    let chain = Blockchain::new(vec![g.clone(), b.clone()], b.get_hash());
    let found = chain.find_transaction(&same_id.id).unwrap();
    assert_eq!(found.vout[0].value, 7);
    let genesis_only = Blockchain::new(vec![g.clone(), b], g.get_hash());
    assert_eq!(genesis_only.find_transaction(&same_id.id).unwrap().vout[0].value, 10);
}

#[test]
fn append_refuses_a_hash_in_use() {
    let mut bc = Blockchain::create_blockchain(String::from("alice")).unwrap();
    let g = bc.blocks_from_tip()[0].clone();
    assert_eq!(bc.append(g.clone()), Err(LedgerError::HashInUse));
    assert_eq!(bc.stored_blocks().len(), 1);
    let cb = Transaction::new_coinbase(String::from("bob"), String::new());
    let next = Block::mine(vec![cb], g.get_hash(), 1, 77).unwrap();
    assert_eq!(bc.append(next.clone()), Ok(()));
    assert_eq!(bc.get_tip(), next.get_hash());
    let mut it = bc.iter();
    assert_eq!(it.next().unwrap().get_hash(), next.get_hash());
    assert_eq!(it.next().unwrap().get_hash(), g.get_hash());
    assert!(it.next().is_none());
    assert_eq!(bc.append(next), Err(LedgerError::HashInUse));
}
