use blockchain_rust::block::{hash_transactions, Block};
use blockchain_rust::codec::{decode_transaction, encode_transaction, put_bytes, put_i32, put_le, put_str, same_text};
use blockchain_rust::hashing::address_from_public_key;
use blockchain_rust::errors::LedgerError;
use blockchain_rust::transaction::{TXInput, TXOutput, Transaction};
use blockchain_rust::wallet::{hash_pub_key, Wallets};

#[test]
fn little_endian_fields() {
    let mut out = Vec::new();
    put_le(&mut out, 0x0102, 4);
    assert_eq!(out, vec![2, 1, 0, 0]);
    let mut out = Vec::new();
    put_i32(&mut out, -1);
    assert_eq!(out, vec![255, 255, 255, 255]);
    let mut out = Vec::new();
    put_bytes(&mut out, &[9, 8]);
    assert_eq!(out, vec![2, 0, 0, 0, 0, 0, 0, 0, 9, 8]);
    let mut out = Vec::new();
    put_str(&mut out, "hé");
    assert_eq!(out, vec![3, 0, 0, 0, 0, 0, 0, 0, b'h', 0xc3, 0xa9]);
}

#[test]
fn transaction_encoding_layout() {
    let tx = Transaction {
        id: String::from("x"),
        vin: vec![TXInput { txid: String::new(), vout: -1, signature: vec![], pub_key: vec![7] }],
        vout: vec![TXOutput { value: 10, script_pub_key: String::from("a") }],
    };
    let expected: Vec<u8> = vec![
        1, 0, 0, 0, 0, 0, 0, 0, b'x', // id
        1, 0, 0, 0, 0, 0, 0, 0, // one input
        0, 0, 0, 0, 0, 0, 0, 0, // empty txid
        255, 255, 255, 255, // vout -1
        0, 0, 0, 0, 0, 0, 0, 0, // no signature
        1, 0, 0, 0, 0, 0, 0, 0, 7, // public key
        1, 0, 0, 0, 0, 0, 0, 0, // one output
        10, 0, 0, 0, // value
        1, 0, 0, 0, 0, 0, 0, 0, b'a', // key
    ];
    assert_eq!(encode_transaction(&tx), expected);
}

#[test]
fn text_equality() {
    assert!(same_text("abc", "abc"));
    assert!(!same_text("abc", "abd"));
    assert!(!same_text("abc", "ab"));
    assert!(same_text("", ""));
}

#[test]
fn transaction_id_digest() {
    let tx = Transaction::new_coinbase(String::from("addr"), String::new());
    assert_eq!(tx.id, "92e4afb1256ebd2bc12001d8fb2cb1a17a6cf9456b78c68946cca0b6202fc4c9");
}

#[test]
fn public_key_hash() {
    let mut k = b"abc".to_vec();
    hash_pub_key(&mut k);
    assert_eq!(
        k,
        vec![
            0xbb, 0x1b, 0xe9, 0x8c, 0x14, 0x24, 0x44, 0xd7, 0xa5, 0x6a, 0xa3, 0x98, 0x1c, 0x39, 0x42, 0xa9, 0x78,
            0xe4, 0xdc, 0x33
        ]
    );
}

fn hex(b: &[u8]) -> String {
    b.iter().map(|x| format!("{:02x}", x)).collect()
}

#[test]
fn merkle_root_of_transactions() {
    let a = Transaction::new_coinbase(String::from("a"), String::new());
    let b = Transaction::new_coinbase(String::from("b"), String::new());
    let c = Transaction::new_coinbase(String::from("c"), String::new());
    assert_eq!(hash_transactions(&vec![a.clone()]), a.id.as_bytes().to_vec());
    assert_eq!(
        hex(&hash_transactions(&vec![a.clone(), b.clone()])),
        "4e5e89b703dfff1ebac872554a9415f045bf01e13b6b425c39e0843294125e5b"
    );
    assert_eq!(
        hex(&hash_transactions(&vec![a, b, c])),
        "b2b651f5013b82f1ce08eb567dc33010735be9c882428e69ef8f84571904affa"
    );
    assert_eq!(hash_transactions(&Vec::new()), Vec::<u8>::new());
}

#[test]
fn address_of_public_key() {
    assert_eq!(address_from_public_key(&[7u8; 32]), "3JEBBqpLebTzrtWkoUatZRL43sF846dtyP");
    assert_ne!(address_from_public_key(&[8u8; 32]), address_from_public_key(&[7u8; 32]));
}

#[test]
fn wallet_collection() {
    let mut ws = Wallets::new();
    let a = ws.create_wallet().unwrap();
    let b = ws.create_wallet().unwrap();
    assert_ne!(a, b);
    let all = ws.get_all_addresses();
    assert_eq!(all, vec![a.clone(), b.clone()]);
    let w = ws.get_wallet(&a).unwrap();
    assert_eq!(w.get_address(), a);
    assert_eq!(w.secret_key.len(), 64);
    assert_eq!(w.public_key.len(), 32);
    assert_eq!(w.secret_key[32..].to_vec(), w.public_key);
    assert!(ws.get_wallet("nobody").is_none());
    let replacement = blockchain_rust::wallet::Wallet::new().unwrap();
    ws.add_wallet(a.clone(), replacement.clone());
    assert_eq!(ws.get_wallet(&a).unwrap().public_key, replacement.public_key);
    assert_eq!(ws.get_all_addresses().len(), 2);
}

#[test]
fn transaction_round_trip() {
    let tx = Transaction {
        id: String::from("id-é"),
        vin: vec![
            TXInput { txid: String::from("abc"), vout: 3, signature: vec![1, 2, 3], pub_key: vec![9; 32] },
            TXInput { txid: String::new(), vout: -7, signature: vec![], pub_key: vec![] },
        ],
        vout: vec![
            TXOutput { value: -5, script_pub_key: String::from("k1") },
            TXOutput { value: i32::MAX, script_pub_key: String::new() },
        ],
    };
    let bytes = encode_transaction(&tx);
    let back = decode_transaction(&bytes).unwrap();
    assert_eq!(format!("{:?}", back), format!("{:?}", tx));
    let cb = Transaction::new_coinbase(String::from("addr"), String::new());
    let back = decode_transaction(&encode_transaction(&cb)).unwrap();
    assert_eq!(back.id, cb.id);
    assert_eq!(back.hash(), cb.id);
}

#[test]
fn corrupt_transaction_bytes() {
    let cb = Transaction::new_coinbase(String::from("addr"), String::new());
    let bytes = encode_transaction(&cb);
    assert_eq!(decode_transaction(&bytes[..bytes.len() - 1]).unwrap_err(), LedgerError::CorruptData);
    let mut longer = bytes.clone();
    longer.push(0);
    assert_eq!(decode_transaction(&longer).unwrap_err(), LedgerError::CorruptData);
    let mut bad_text = bytes.clone();
    bad_text[8] = 0xff;
    assert_eq!(decode_transaction(&bad_text).unwrap_err(), LedgerError::CorruptData);
    assert_eq!(decode_transaction(&[]).unwrap_err(), LedgerError::CorruptData);
}

#[test]
fn block_round_trip() {
    let cb = Transaction::new_coinbase(String::from("miner"), String::new());
    let b = Block::mine(vec![cb], String::from("prev"), 7, 123_456).unwrap();
    let bytes = b.encode();
    let back = Block::decode(&bytes).unwrap();
    assert_eq!(format!("{:?}", back), format!("{:?}", b));
    assert_eq!(back.get_hash(), b.get_hash());
    let mut tampered = bytes.clone();
    tampered[0] ^= 1;
    assert_eq!(Block::decode(&tampered).unwrap_err(), LedgerError::CorruptData);
    assert_eq!(Block::decode(&bytes[..10]).unwrap_err(), LedgerError::CorruptData);
}
