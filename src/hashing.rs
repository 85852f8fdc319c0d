//! Digests, the Merkle root, signatures and addresses, as provided by the
//! cryptography crates. Each result that depends on its arguments alone is
//! given a name, so that contracts elsewhere can speak of it exactly.

use crypto::digest::Digest;
use vstd::prelude::*;

verus! {

/// The SHA-256 digest of some bytes.
pub uninterp spec fn sha256_of(data: Seq<u8>) -> Seq<u8>;

/// A number below 16 as a lowercase hexadecimal digit.
pub open spec fn hex_digit(d: int) -> char {
    if d < 10 {
        ((48 + d) as u8) as char
    } else {
        ((87 + d) as u8) as char
    }
}

/// Bytes as lowercase hexadecimal text: two digits per byte, high half first.
pub open spec fn hex_of(b: Seq<u8>) -> Seq<char> {
    Seq::new(
        2 * b.len(),
        |i: int|
            hex_digit(
                if i % 2 == 0 {
                    (b[i / 2] / 16) as int
                } else {
                    (b[i / 2] % 16) as int
                },
            ),
    )
}

/// Node `i` of the complete binary Merkle tree over some leaves. The `n`
/// leaves fill the last `n` slots of an array of `2n - 1` nodes; each
/// earlier node `i` merges nodes `2i + 1` and `2i + 2`: SHA-256 over the
/// left child's bytes followed by the right child's.
pub open spec fn merkle_node(leaves: Seq<Seq<u8>>, i: int) -> Seq<u8>
    decreases 2 * leaves.len() - i,
{
    if i < 0 || i >= 2 * leaves.len() - 1 {
        Seq::empty()
    } else if i >= leaves.len() - 1 {
        leaves[i - (leaves.len() - 1)]
    } else {
        sha256_of(merkle_node(leaves, 2 * i + 1) + merkle_node(leaves, 2 * i + 2))
    }
}

/// The root of the complete binary Merkle tree over some leaves: node 0. A
/// single leaf is its own root; no leaves give an empty root.
pub open spec fn merkle_root_of(leaves: Seq<Seq<u8>>) -> Seq<u8> {
    if leaves.len() == 0 {
        Seq::empty()
    } else {
        merkle_node(leaves, 0)
    }
}

/// The RIPEMD-160 digest of some bytes.
pub uninterp spec fn ripemd160_of(data: Seq<u8>) -> Seq<u8>;

/// The Base58Check text of a script-hash address on the main network whose
/// body is the given bytes.
pub uninterp spec fn base58_address_of(body: Seq<u8>) -> Seq<char>;

/// The Ed25519 secret key (seed followed by public key) derived from a seed.
pub uninterp spec fn ed25519_secret_of(seed: Seq<u8>) -> Seq<u8>;

/// The Ed25519 public key derived from a seed.
pub uninterp spec fn ed25519_public_of(seed: Seq<u8>) -> Seq<u8>;

/// The Ed25519 signature of a message under a secret key.
pub uninterp spec fn ed25519_signature_of(message: Seq<u8>, secret_key: Seq<u8>) -> Seq<u8>;

/// Whether a signature of a message checks out under a public key.
pub uninterp spec fn ed25519_accepts(message: Seq<u8>, public_key: Seq<u8>, signature: Seq<u8>) -> bool;

/// The address that owns a public key: the Base58Check encoding of
/// RIPEMD-160 over SHA-256 of the key.
pub open spec fn address_of(public_key: Seq<u8>) -> Seq<char> {
    base58_address_of(ripemd160_of(sha256_of(public_key)))
}

/// Relies on `crypto::ripemd160::Ripemd160` (`input`, then `result`): a 20-byte digest.
#[verifier::external_body]
pub(crate) fn ripemd160(data: &[u8]) -> (r: Vec<u8>)
    ensures
        r@ == ripemd160_of(data@),
        r@.len() == 20,
{
    let mut hasher = crypto::ripemd160::Ripemd160::new();
    hasher.input(data);
    let mut out = vec![0u8; 20];
    hasher.result(&mut out);
    out
}

/// Relies on `bitcoincash_addr::Address::encode` with the Base58 scheme,
/// which the crate documents as infallible.
#[verifier::external_body]
pub(crate) fn base58_address(body: &Vec<u8>) -> (r: String)
    ensures
        r@ == base58_address_of(body@),
{
    let address = bitcoincash_addr::Address {
        body: body.clone(),
        scheme: bitcoincash_addr::Scheme::Base58,
        hash_type: bitcoincash_addr::HashType::Script,
        ..Default::default()
    };
    address.encode().unwrap()
}

/// The address that owns a public key.
pub fn address_from_public_key(public_key: &[u8]) -> (r: String)
    ensures
        r@ == address_of(public_key@),
{
    let digest = sha256(public_key);
    let body = ripemd160(digest.as_slice());
    base58_address(&body)
}

/// Relies on `crypto::ed25519::keypair`: a 64-byte secret key and a 32-byte
/// public key, both determined by the seed.
#[verifier::external_body]
pub(crate) fn ed25519_keypair(seed: &[u8]) -> (r: (Vec<u8>, Vec<u8>))
    ensures
        r.0@ == ed25519_secret_of(seed@),
        r.1@ == ed25519_public_of(seed@),
        r.0@.len() == 64,
        r.1@.len() == 32,
{
    let (secret, public) = crypto::ed25519::keypair(seed);
    (secret.to_vec(), public.to_vec())
}

/// Relies on `crypto::ed25519::signature`, which slices the secret key's
/// first 64 bytes: a 64-byte signature.
#[verifier::external_body]
pub(crate) fn ed25519_sign(message: &[u8], secret_key: &[u8]) -> (r: Vec<u8>)
    requires
        secret_key@.len() >= 64,
    ensures
        r@ == ed25519_signature_of(message@, secret_key@),
        r@.len() == 64,
{
    crypto::ed25519::signature(message, secret_key).to_vec()
}

/// Relies on `crypto::ed25519::verify`, which slices the signature's first
/// 64 bytes and the public key's first 32.
#[verifier::external_body]
pub(crate) fn ed25519_verify(message: &[u8], public_key: &[u8], signature: &[u8]) -> (r: bool)
    requires
        public_key@.len() >= 32,
        signature@.len() >= 64,
    ensures
        r == ed25519_accepts(message@, public_key@, signature@),
{
    crypto::ed25519::verify(message, public_key, signature)
}

/// Relies on `rand::rngs::OsRng::try_fill_bytes`: 32 bytes from the
/// operating system's generator, of which nothing else is known, or `None`
/// when the generator fails.
#[verifier::external_body]
pub(crate) fn random_seed() -> (r: Option<Vec<u8>>)
    ensures
        r is Some ==> r.unwrap()@.len() == 32,
{
    let mut key = vec![0u8; 32];
    match rand::RngCore::try_fill_bytes(&mut rand::rngs::OsRng, &mut key) {
        Ok(()) => Some(key),
        Err(_) => None,
    }
}

/// Relies on `crypto::sha2::Sha256` (`input`, then `result`): a 32-byte digest.
#[verifier::external_body]
pub(crate) fn sha256(data: &[u8]) -> (r: Vec<u8>)
    ensures
        r@ == sha256_of(data@),
        r@.len() == 32,
{
    let mut hasher = crypto::sha2::Sha256::new();
    hasher.input(data);
    let mut out = vec![0u8; 32];
    hasher.result(&mut out);
    out
}

/// Relies on `crypto::sha2::Sha256` (`input`, then `result_str`, which
/// renders the 32-byte digest with `rustc_serialize::hex::ToHex`): the
/// digest as 64 lowercase hexadecimal digits.
#[verifier::external_body]
pub(crate) fn sha256_hex(data: &[u8]) -> (r: String)
    ensures
        r@ == hex_of(sha256_of(data@)),
        r@.len() == 64,
{
    let mut hasher = crypto::sha2::Sha256::new();
    hasher.input(data);
    hasher.result_str()
}

/// The merge step of the transactions' Merkle tree: SHA-256 of the left
/// child's bytes followed by the right child's.
pub(crate) struct MergeTX {}

impl merkle_cbt::merkle_tree::Merge for MergeTX {
    type Item = Vec<u8>;

    fn merge(left: &Vec<u8>, right: &Vec<u8>) -> (r: Vec<u8>)
        ensures
            r@ == sha256_of(left@ + right@),
            r@.len() == 32,
    {
        let mut data = left.clone();
        let mut tail = right.clone();
        proof {
            assert(data@ =~= left@);
            assert(tail@ =~= right@);
        }
        data.append(&mut tail);
        sha256(data.as_slice())
    }
}

/// Relies on `merkle_cbt::CBMT::build_merkle_tree(..).root()` with the merge
/// step of `MergeTX`: the tree's nodes are laid out as `merkle_node` says,
/// and `root` gives node 0, or an empty vector when there are no leaves.
#[verifier::external_body]
pub(crate) fn merkle_root(leaves: &Vec<Vec<u8>>) -> (r: Vec<u8>)
    ensures
        r@ == merkle_root_of(leaves@.map_values(|l: Vec<u8>| l@)),
{
    merkle_cbt::merkle_tree::CBMT::<Vec<u8>, MergeTX>::build_merkle_tree(leaves.as_slice()).root()
}

} // verus!
