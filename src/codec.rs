//! The canonical binary encoding of transactions and of a block's hash
//! preimage: integers in fixed width, little-endian; byte strings and text
//! as a 64-bit length followed by their bytes; sequences as a 64-bit count
//! followed by their items, in order.

use crate::block::BlockModel;
use crate::errors::LedgerError;
use crate::transaction::{InputModel, OutputModel, TXInput, TXOutput, Transaction, TxModel, models};
use vstd::prelude::*;
use vstd::string::*;
use vstd::utf8::*;

verus! {

/// The low `n` bytes of `v`, least significant first.
pub open spec fn le_bytes(v: nat, n: nat) -> Seq<u8>
    decreases n,
{
    if n == 0 {
        Seq::empty()
    } else {
        seq![(v % 256) as u8] + le_bytes(v / 256, (n - 1) as nat)
    }
}

pub open spec fn enc_u64(v: nat) -> Seq<u8> {
    le_bytes(v, 8)
}

/// The two's-complement bits of `v`, as an unsigned number.
pub open spec fn i32_bits(v: i32) -> nat {
    if v >= 0 {
        v as nat
    } else {
        (v + 0x1_0000_0000) as nat
    }
}

pub open spec fn enc_i32(v: i32) -> Seq<u8> {
    le_bytes(i32_bits(v), 4)
}

pub open spec fn enc_bytes(b: Seq<u8>) -> Seq<u8> {
    enc_u64(b.len()) + b
}

pub open spec fn enc_str(s: Seq<char>) -> Seq<u8> {
    enc_bytes(encode_utf8(s))
}

pub open spec fn enc_input(i: InputModel) -> Seq<u8> {
    enc_str(i.txid) + enc_i32(i.vout) + enc_bytes(i.signature) + enc_bytes(i.pub_key)
}

pub open spec fn enc_output(o: OutputModel) -> Seq<u8> {
    enc_i32(o.value) + enc_str(o.key)
}

pub open spec fn enc_inputs(s: Seq<InputModel>) -> Seq<u8>
    decreases s.len(),
{
    if s.len() == 0 {
        Seq::empty()
    } else {
        enc_inputs(s.drop_last()) + enc_input(s.last())
    }
}

pub open spec fn enc_outputs(s: Seq<OutputModel>) -> Seq<u8>
    decreases s.len(),
{
    if s.len() == 0 {
        Seq::empty()
    } else {
        enc_outputs(s.drop_last()) + enc_output(s.last())
    }
}

/// The encoding of a whole transaction, id first.
pub open spec fn enc_tx(t: TxModel) -> Seq<u8> {
    enc_str(t.id) + enc_u64(t.vin.len()) + enc_inputs(t.vin) + enc_u64(t.vout.len())
        + enc_outputs(t.vout)
}

pub open spec fn enc_txs(s: Seq<TxModel>) -> Seq<u8>
    decreases s.len(),
{
    if s.len() == 0 {
        Seq::empty()
    } else {
        enc_txs(s.drop_last()) + enc_tx(s.last())
    }
}

/// The stored encoding of a block: nonce, height, timestamp, hash, previous
/// hash, then its transactions.
pub open spec fn enc_block(b: BlockModel) -> Seq<u8> {
    le_bytes(b.nonce as nat, 4) + enc_u64(b.height as nat) + le_bytes(b.timestamp as nat, 16) + enc_str(b.hash)
        + enc_str(b.prev_hash) + enc_u64(b.txs.len()) + enc_txs(b.txs)
}

/// Appends the bytes as they are.
pub fn put_raw(out: &mut Vec<u8>, b: &[u8])
    ensures
        final(out)@ == old(out)@ + b@,
{
    let ghost start = out@;
    let mut i: usize = 0;
    while i < b.len()
        invariant
            i <= b@.len(),
            out@ == start + b@.subrange(0, i as int),
        decreases b@.len() - i,
    {
        out.push(b[i]);
        proof {
            assert(b@.subrange(0, i + 1) =~= b@.subrange(0, i as int).push(b@[i as int]));
        }
        i = i + 1;
    }
    proof {
        assert(b@.subrange(0, b@.len() as int) =~= b@);
    }
}

/// Appends the low `n` bytes of `v`, least significant first.
pub fn put_le(out: &mut Vec<u8>, v: u128, n: usize)
    ensures
        final(out)@ == old(out)@ + le_bytes(v as nat, n as nat),
{
    let ghost start = out@;
    let mut x: u128 = v;
    let mut i: usize = 0;
    while i < n
        invariant
            i <= n,
            start + le_bytes(v as nat, n as nat) == out@ + le_bytes(x as nat, (n - i) as nat),
        decreases n - i,
    {
        let ghost before = out@;
        out.push((x % 256) as u8);
        proof {
            assert(le_bytes(x as nat, (n - i) as nat) == seq![(x % 256) as u8] + le_bytes(
                (x / 256) as nat,
                (n - i - 1) as nat,
            ));
            assert(out@ + le_bytes((x / 256) as nat, (n - i - 1) as nat) =~= before + (seq![
                (x % 256) as u8,
            ] + le_bytes((x / 256) as nat, (n - i - 1) as nat)));
        }
        x = x / 256;
        i = i + 1;
    }
    proof {
        assert(out@ + le_bytes(x as nat, 0) =~= out@);
    }
}

/// Appends a 64-bit length, then the bytes.
pub fn put_bytes(out: &mut Vec<u8>, b: &[u8])
    ensures
        final(out)@ == old(out)@ + enc_bytes(b@),
        b@.len() < pow256(8),
{
    proof {
        lemma_pow256_16();
    }
    put_le(out, b.len() as u128, 8);
    let ghost mid = out@;
    let mut i: usize = 0;
    while i < b.len()
        invariant
            i <= b@.len(),
            out@ == mid + b@.subrange(0, i as int),
        decreases b@.len() - i,
    {
        out.push(b[i]);
        proof {
            assert(b@.subrange(0, i + 1) =~= b@.subrange(0, i as int).push(b@[i as int]));
        }
        i = i + 1;
    }
    proof {
        assert(b@.subrange(0, b@.len() as int) =~= b@);
        assert(mid + b@ =~= old(out)@ + enc_bytes(b@));
    }
}

/// Appends a 64-bit byte length, then the UTF-8 bytes of the text.
pub fn put_str(out: &mut Vec<u8>, s: &str)
    ensures
        final(out)@ == old(out)@ + enc_str(s@),
        encode_utf8(s@).len() < pow256(8),
{
    put_bytes(out, s.as_bytes());
}

pub fn put_i32(out: &mut Vec<u8>, v: i32)
    ensures
        final(out)@ == old(out)@ + enc_i32(v),
{
    let bits: u128 = if v >= 0 {
        v as u128
    } else {
        (v as i64 + 0x1_0000_0000i64) as u128
    };
    put_le(out, bits, 4);
}

fn put_input(out: &mut Vec<u8>, input: &TXInput)
    ensures
        final(out)@ == old(out)@ + enc_input(input@),
        input_fits(input@),
{
    put_str(out, input.txid.as_str());
    put_i32(out, input.vout);
    put_bytes(out, input.signature.as_slice());
    put_bytes(out, input.pub_key.as_slice());
    proof {
        assert(final(out)@ =~= old(out)@ + enc_input(input@));
    }
}

fn put_output(out: &mut Vec<u8>, output: &TXOutput)
    ensures
        final(out)@ == old(out)@ + enc_output(output@),
        encode_utf8(output@.key).len() < pow256(8),
{
    put_i32(out, output.value);
    put_str(out, output.script_pub_key.as_str());
    proof {
        assert(final(out)@ =~= old(out)@ + enc_output(output@));
    }
}

/// The canonical bytes of a transaction.
pub fn encode_transaction(tx: &Transaction) -> (r: Vec<u8>)
    ensures
        r@ == enc_tx(tx@),
        tx_fits(tx@),
        decoded_tx(r@) == Some(tx@),
{
    proof {
        lemma_pow256_16();
    }
    let mut out: Vec<u8> = Vec::new();
    put_str(&mut out, tx.id.as_str());
    put_le(&mut out, tx.vin.len() as u128, 8);
    let ghost head = out@;
    let mut i: usize = 0;
    while i < tx.vin.len()
        invariant
            i <= tx.vin@.len(),
            out@ == head + enc_inputs(tx@.vin.subrange(0, i as int)),
            forall|k: int| 0 <= k < i ==> input_fits(#[trigger] tx@.vin[k]),
        decreases tx.vin@.len() - i,
    {
        put_input(&mut out, &tx.vin[i]);
        proof {
            let s = tx@.vin.subrange(0, i + 1);
            assert(s.drop_last() =~= tx@.vin.subrange(0, i as int));
            assert(out@ =~= head + enc_inputs(s));
        }
        i = i + 1;
    }
    proof {
        assert(tx@.vin.subrange(0, tx.vin@.len() as int) =~= tx@.vin);
    }
    put_le(&mut out, tx.vout.len() as u128, 8);
    let ghost head2 = out@;
    let mut j: usize = 0;
    while j < tx.vout.len()
        invariant
            j <= tx.vout@.len(),
            out@ == head2 + enc_outputs(tx@.vout.subrange(0, j as int)),
            forall|k: int| 0 <= k < j ==> encode_utf8((#[trigger] tx@.vout[k]).key).len() < pow256(8),
        decreases tx.vout@.len() - j,
    {
        put_output(&mut out, &tx.vout[j]);
        proof {
            let s = tx@.vout.subrange(0, j + 1);
            assert(s.drop_last() =~= tx@.vout.subrange(0, j as int));
            assert(out@ =~= head2 + enc_outputs(s));
        }
        j = j + 1;
    }
    proof {
        assert(tx@.vout.subrange(0, tx.vout@.len() as int) =~= tx@.vout);
        assert(out@ =~= enc_tx(tx@));
        assert(tx@.vin.len() == tx.vin@.len() && tx@.vout.len() == tx.vout@.len());
        lemma_transaction_round_trip(tx@);
    }
    out
}


/// Whether two texts are equal, decided on their UTF-8 bytes.
pub fn same_text(a: &str, b: &str) -> (r: bool)
    ensures
        r == (a@ == b@),
{
    let x = a.as_bytes();
    let y = b.as_bytes();
    proof {
        encode_utf8_decode_utf8(a@);
        encode_utf8_decode_utf8(b@);
    }
    if x.len() != y.len() {
        return false;
    }
    let mut i: usize = 0;
    while i < x.len()
        invariant
            i <= x@.len(),
            x@.len() == y@.len(),
            x@ == encode_utf8(a@),
            y@ == encode_utf8(b@),
            forall|k: int| 0 <= k < i ==> x@[k] == y@[k],
        decreases x@.len() - i,
    {
        if x[i] != y[i] {
            return false;
        }
        i = i + 1;
    }
    proof {
        assert(x@ =~= y@);
    }
    true
}


/// `256` to the power `n`.
pub open spec fn pow256(n: nat) -> nat
    decreases n,
{
    if n == 0 {
        1
    } else {
        256 * pow256((n - 1) as nat)
    }
}

/// The number whose little-endian bytes are `b`.
pub open spec fn le_value(b: Seq<u8>) -> nat
    decreases b.len(),
{
    if b.len() == 0 {
        0
    } else {
        b[0] as nat + 256 * le_value(b.drop_first())
    }
}

/// Reads an `n`-byte little-endian number at `at`; gives it and the position after it.
pub open spec fn parse_uint(b: Seq<u8>, at: int, n: nat) -> Option<(nat, int)> {
    if 0 <= at && at + n <= b.len() {
        Some((le_value(b.subrange(at, at + n)), at + n))
    } else {
        None
    }
}

/// Reads a 64-bit length and that many bytes.
pub open spec fn parse_bytes(b: Seq<u8>, at: int) -> Option<(Seq<u8>, int)> {
    match parse_uint(b, at, 8) {
        Some((len, p)) => if p + len <= b.len() {
            Some((b.subrange(p, p + len), p + len))
        } else {
            None
        },
        None => None,
    }
}

/// Reads a 64-bit length and that many bytes, which must be UTF-8.
pub open spec fn parse_str(b: Seq<u8>, at: int) -> Option<(Seq<char>, int)> {
    match parse_bytes(b, at) {
        Some((bs, p)) => if valid_utf8(bs) {
            Some((decode_utf8(bs), p))
        } else {
            None
        },
        None => None,
    }
}

/// The `i32` whose two's-complement bits are `v`.
pub open spec fn i32_of_bits(v: nat) -> i32 {
    if v < 0x8000_0000 {
        v as i32
    } else {
        (v - 0x1_0000_0000) as i32
    }
}

pub open spec fn parse_i32(b: Seq<u8>, at: int) -> Option<(i32, int)> {
    match parse_uint(b, at, 4) {
        Some((v, p)) => Some((i32_of_bits(v), p)),
        None => None,
    }
}

pub open spec fn parse_input(b: Seq<u8>, at: int) -> Option<(InputModel, int)> {
    match parse_str(b, at) {
        Some((txid, pos1)) => match parse_i32(b, pos1) {
            Some((vout, pos2)) => match parse_bytes(b, pos2) {
                Some((signature, pos3)) => match parse_bytes(b, pos3) {
                    Some((pub_key, pos4)) => Some((InputModel { txid, vout, signature, pub_key }, pos4)),
                    None => None,
                },
                None => None,
            },
            None => None,
        },
        None => None,
    }
}

pub open spec fn parse_output(b: Seq<u8>, at: int) -> Option<(OutputModel, int)> {
    match parse_i32(b, at) {
        Some((value, pos1)) => match parse_str(b, pos1) {
            Some((key, pos2)) => Some((OutputModel { value, key }, pos2)),
            None => None,
        },
        None => None,
    }
}

/// Reads `count` inputs, one after another.
pub open spec fn parse_inputs(b: Seq<u8>, at: int, count: nat) -> Option<(Seq<InputModel>, int)>
    decreases count,
{
    if count == 0 {
        Some((Seq::empty(), at))
    } else {
        match parse_inputs(b, at, (count - 1) as nat) {
            Some((s, p)) => match parse_input(b, p) {
                Some((i, q)) => Some((s.push(i), q)),
                None => None,
            },
            None => None,
        }
    }
}

/// Reads `count` outputs, one after another.
pub open spec fn parse_outputs(b: Seq<u8>, at: int, count: nat) -> Option<(Seq<OutputModel>, int)>
    decreases count,
{
    if count == 0 {
        Some((Seq::empty(), at))
    } else {
        match parse_outputs(b, at, (count - 1) as nat) {
            Some((s, p)) => match parse_output(b, p) {
                Some((o, q)) => Some((s.push(o), q)),
                None => None,
            },
            None => None,
        }
    }
}

pub open spec fn parse_tx(b: Seq<u8>, at: int) -> Option<(TxModel, int)> {
    match parse_str(b, at) {
        Some((id, pos1)) => match parse_uint(b, pos1, 8) {
            Some((n_in, pos2)) => match parse_inputs(b, pos2, n_in) {
                Some((vin, pos3)) => match parse_uint(b, pos3, 8) {
                    Some((n_out, pos4)) => match parse_outputs(b, pos4, n_out) {
                        Some((vout, pos5)) => Some((TxModel { id, vin, vout }, pos5)),
                        None => None,
                    },
                    None => None,
                },
                None => None,
            },
            None => None,
        },
        None => None,
    }
}

/// The transaction that `b` encodes, when `b` holds one and nothing more.
pub open spec fn decoded_tx(b: Seq<u8>) -> Option<TxModel> {
    match parse_tx(b, 0) {
        Some((t, end)) => if end == b.len() {
            Some(t)
        } else {
            None
        },
        None => None,
    }
}

/// Every length in the transaction fits the encoding's 64-bit counts.
pub open spec fn tx_fits(t: TxModel) -> bool {
    &&& encode_utf8(t.id).len() < pow256(8)
    &&& t.vin.len() < pow256(8)
    &&& t.vout.len() < pow256(8)
    &&& forall|i: int| 0 <= i < t.vin.len() ==> input_fits(#[trigger] t.vin[i])
    &&& forall|i: int| 0 <= i < t.vout.len() ==> encode_utf8((#[trigger] t.vout[i]).key).len() < pow256(8)
}

pub open spec fn input_fits(i: InputModel) -> bool {
    &&& encode_utf8(i.txid).len() < pow256(8)
    &&& i.signature.len() < pow256(8)
    &&& i.pub_key.len() < pow256(8)
}

/// The bytes `e` stand in `b` at position `at`.
pub open spec fn holds_at(b: Seq<u8>, at: int, e: Seq<u8>) -> bool {
    0 <= at && at + e.len() <= b.len() && b.subrange(at, at + e.len()) == e
}

proof fn lemma_holds_split(b: Seq<u8>, at: int, e1: Seq<u8>, e2: Seq<u8>)
    requires
        holds_at(b, at, e1 + e2),
    ensures
        holds_at(b, at, e1),
        holds_at(b, at + e1.len(), e2),
{
    assert(b.subrange(at, at + e1.len()) =~= (e1 + e2).subrange(0, e1.len() as int));
    assert((e1 + e2).subrange(0, e1.len() as int) =~= e1);
    assert(b.subrange(at + e1.len(), at + e1.len() + e2.len()) =~= (e1 + e2).subrange(
        e1.len() as int,
        (e1.len() + e2.len()) as int,
    ));
    assert((e1 + e2).subrange(e1.len() as int, (e1.len() + e2.len()) as int) =~= e2);
}

proof fn lemma_le_len(v: nat, n: nat)
    ensures
        le_bytes(v, n).len() == n,
    decreases n,
{
    if n > 0 {
        lemma_le_len(v / 256, (n - 1) as nat);
    }
}

proof fn lemma_le_round_trip(v: nat, n: nat)
    requires
        v < pow256(n),
    ensures
        le_value(le_bytes(v, n)) == v,
    decreases n,
{
    if n > 0 {
        let p = pow256((n - 1) as nat);
        assert(v / 256 < p) by (nonlinear_arith)
            requires
                v < 256 * p,
        ;
        lemma_le_round_trip(v / 256, (n - 1) as nat);
        let b = le_bytes(v, n);
        assert(b.drop_first() =~= le_bytes(v / 256, (n - 1) as nat));
    }
}

proof fn lemma_uint_rt(b: Seq<u8>, at: int, v: nat, n: nat)
    requires
        v < pow256(n),
        holds_at(b, at, le_bytes(v, n)),
    ensures
        parse_uint(b, at, n) == Some((v, at + n)),
{
    lemma_le_len(v, n);
    lemma_le_round_trip(v, n);
}

proof fn lemma_bytes_rt(b: Seq<u8>, at: int, bs: Seq<u8>)
    requires
        bs.len() < pow256(8),
        holds_at(b, at, enc_bytes(bs)),
    ensures
        parse_bytes(b, at) == Some((bs, at + enc_bytes(bs).len())),
{
    lemma_le_len(bs.len(), 8);
    lemma_holds_split(b, at, le_bytes(bs.len(), 8), bs);
    lemma_uint_rt(b, at, bs.len(), 8);
}

proof fn lemma_str_rt(b: Seq<u8>, at: int, s: Seq<char>)
    requires
        encode_utf8(s).len() < pow256(8),
        holds_at(b, at, enc_str(s)),
    ensures
        parse_str(b, at) == Some((s, at + enc_str(s).len())),
{
    lemma_bytes_rt(b, at, encode_utf8(s));
    encode_utf8_valid_utf8(s);
    encode_utf8_decode_utf8(s);
}

proof fn lemma_i32_rt(b: Seq<u8>, at: int, v: i32)
    requires
        holds_at(b, at, enc_i32(v)),
    ensures
        parse_i32(b, at) == Some((v, at + 4)),
        enc_i32(v).len() == 4,
{
    assert(pow256(4) == 0x1_0000_0000) by {
        reveal_with_fuel(pow256, 5);
    }
    lemma_le_len(i32_bits(v), 4);
    lemma_uint_rt(b, at, i32_bits(v), 4);
}

proof fn lemma_input_rt(b: Seq<u8>, at: int, i: InputModel)
    requires
        input_fits(i),
        holds_at(b, at, enc_input(i)),
    ensures
        parse_input(b, at) == Some((i, at + enc_input(i).len())),
{
    let e1 = enc_str(i.txid);
    let e2 = enc_i32(i.vout);
    let e3 = enc_bytes(i.signature);
    let e4 = enc_bytes(i.pub_key);
    lemma_holds_split(b, at, e1 + e2 + e3, e4);
    lemma_holds_split(b, at, e1 + e2, e3);
    lemma_holds_split(b, at, e1, e2);
    lemma_str_rt(b, at, i.txid);
    lemma_i32_rt(b, at + e1.len(), i.vout);
    lemma_bytes_rt(b, at + e1.len() + e2.len(), i.signature);
    lemma_bytes_rt(b, at + e1.len() + e2.len() + e3.len(), i.pub_key);
}

proof fn lemma_output_rt(b: Seq<u8>, at: int, o: OutputModel)
    requires
        encode_utf8(o.key).len() < pow256(8),
        holds_at(b, at, enc_output(o)),
    ensures
        parse_output(b, at) == Some((o, at + enc_output(o).len())),
{
    let e1 = enc_i32(o.value);
    let e2 = enc_str(o.key);
    lemma_holds_split(b, at, e1, e2);
    lemma_i32_rt(b, at, o.value);
    lemma_str_rt(b, at + e1.len(), o.key);
}

proof fn lemma_inputs_rt(b: Seq<u8>, at: int, s: Seq<InputModel>)
    requires
        forall|i: int| 0 <= i < s.len() ==> input_fits(#[trigger] s[i]),
        holds_at(b, at, enc_inputs(s)),
    ensures
        parse_inputs(b, at, s.len()) == Some((s, at + enc_inputs(s).len())),
    decreases s.len(),
{
    if s.len() == 0 {
        assert(s =~= Seq::<InputModel>::empty());
    } else {
        let d = s.drop_last();
        lemma_holds_split(b, at, enc_inputs(d), enc_input(s.last()));
        lemma_inputs_rt(b, at, d);
        assert(input_fits(s[s.len() - 1]));
        lemma_input_rt(b, at + enc_inputs(d).len(), s.last());
        assert(d.push(s.last()) =~= s);
    }
}

proof fn lemma_outputs_rt(b: Seq<u8>, at: int, s: Seq<OutputModel>)
    requires
        forall|i: int| 0 <= i < s.len() ==> encode_utf8((#[trigger] s[i]).key).len() < pow256(8),
        holds_at(b, at, enc_outputs(s)),
    ensures
        parse_outputs(b, at, s.len()) == Some((s, at + enc_outputs(s).len())),
    decreases s.len(),
{
    if s.len() == 0 {
        assert(s =~= Seq::<OutputModel>::empty());
    } else {
        let d = s.drop_last();
        lemma_holds_split(b, at, enc_outputs(d), enc_output(s.last()));
        lemma_outputs_rt(b, at, d);
        assert(encode_utf8(s[s.len() - 1].key).len() < pow256(8));
        lemma_output_rt(b, at + enc_outputs(d).len(), s.last());
        assert(d.push(s.last()) =~= s);
    }
}

proof fn lemma_tx_rt(b: Seq<u8>, at: int, t: TxModel)
    requires
        tx_fits(t),
        holds_at(b, at, enc_tx(t)),
    ensures
        parse_tx(b, at) == Some((t, at + enc_tx(t).len())),
{
    let e1 = enc_str(t.id);
    let e2 = enc_u64(t.vin.len());
    let e3 = enc_inputs(t.vin);
    let e4 = enc_u64(t.vout.len());
    let e5 = enc_outputs(t.vout);
    lemma_holds_split(b, at, e1 + e2 + e3 + e4, e5);
    lemma_holds_split(b, at, e1 + e2 + e3, e4);
    lemma_holds_split(b, at, e1 + e2, e3);
    lemma_holds_split(b, at, e1, e2);
    lemma_le_len(t.vin.len(), 8);
    lemma_le_len(t.vout.len(), 8);
    lemma_str_rt(b, at, t.id);
    lemma_uint_rt(b, at + e1.len(), t.vin.len(), 8);
    lemma_inputs_rt(b, at + e1.len() + 8, t.vin);
    lemma_uint_rt(b, at + e1.len() + 8 + e3.len(), t.vout.len(), 8);
    lemma_outputs_rt(b, at + e1.len() + 8 + e3.len() + 8, t.vout);
}

/// Decoding the encoding of a transaction gives back the same transaction,
/// id and signatures included.
pub proof fn lemma_transaction_round_trip(t: TxModel)
    requires
        tx_fits(t),
    ensures
        decoded_tx(enc_tx(t)) == Some(t),
{
    assert(enc_tx(t).subrange(0, enc_tx(t).len() as int) =~= enc_tx(t));
    lemma_tx_rt(enc_tx(t), 0, t);
}

proof fn lemma_le_value_bound(b: Seq<u8>)
    ensures
        le_value(b) < pow256(b.len()),
    decreases b.len(),
{
    if b.len() > 0 {
        lemma_le_value_bound(b.drop_first());
        let p = pow256(b.drop_first().len());
        let a = le_value(b.drop_first());
        let x = b[0] as nat;
        assert(x + 256 * a < 256 * p) by (nonlinear_arith)
            requires
                a < p,
                x < 256,
        ;
    }
}

proof fn lemma_pow256_mono(a: nat, b: nat)
    requires
        a <= b,
    ensures
        pow256(a) <= pow256(b),
    decreases b,
{
    if a < b {
        lemma_pow256_mono(a, (b - 1) as nat);
    }
}

proof fn lemma_pow256_16()
    ensures
        pow256(16) == 0x1_0000_0000_0000_0000_0000_0000_0000_0000,
        pow256(8) == 0x1_0000_0000_0000_0000,
        pow256(4) == 0x1_0000_0000,
{
    reveal_with_fuel(pow256, 17);
}

proof fn lemma_inputs_fail_on(b: Seq<u8>, at: int, k: nat, m: nat)
    requires
        k <= m,
        parse_inputs(b, at, k) is None,
    ensures
        parse_inputs(b, at, m) is None,
    decreases m,
{
    if k < m {
        lemma_inputs_fail_on(b, at, k, (m - 1) as nat);
    }
}

proof fn lemma_outputs_fail_on(b: Seq<u8>, at: int, k: nat, m: nat)
    requires
        k <= m,
        parse_outputs(b, at, k) is None,
    ensures
        parse_outputs(b, at, m) is None,
    decreases m,
{
    if k < m {
        lemma_outputs_fail_on(b, at, k, (m - 1) as nat);
    }
}

/// Relies on `String::from_utf8`: it succeeds exactly on valid UTF-8, with
/// the text that the bytes encode.
#[verifier::external_body]
fn text_from_utf8(bytes: Vec<u8>) -> (r: Option<String>)
    ensures
        match r {
            Some(s) => valid_utf8(bytes@) && s@ == decode_utf8(bytes@),
            None => !valid_utf8(bytes@),
        },
{
    String::from_utf8(bytes).ok()
}

/// Reads an `n`-byte little-endian number at `at`.
pub fn read_uint(b: &[u8], at: usize, n: usize) -> (r: Option<(u128, usize)>)
    requires
        n <= 16,
    ensures
        match r {
            Some((v, p)) => parse_uint(b@, at as int, n as nat) == Some((v as nat, p as int)),
            None => parse_uint(b@, at as int, n as nat) is None,
        },
{
    if n > b.len() || at > b.len() - n {
        return None;
    }
    let end = at + n;
    let mut acc: u128 = 0;
    let mut i: usize = end;
    proof {
        lemma_pow256_16();
    }
    while i > at
        invariant
            at <= i <= end,
            end == at + n,
            end <= b@.len(),
            n <= 16,
            pow256(16) == 0x1_0000_0000_0000_0000_0000_0000_0000_0000,
            acc as nat == le_value(b@.subrange(i as int, end as int)),
        decreases i,
    {
        let ghost rest = b@.subrange(i as int, end as int);
        let ghost next = b@.subrange(i - 1, end as int);
        proof {
            assert(next.drop_first() =~= rest);
            assert(next[0] == b@[i - 1]);
            lemma_le_value_bound(next);
            lemma_pow256_mono(next.len(), 16);
        }
        acc = acc * 256 + b[i - 1] as u128;
        i = i - 1;
    }
    Some((acc, end))
}

/// Reads a 64-bit length and that many bytes.
pub fn read_bytes(b: &[u8], at: usize) -> (r: Option<(Vec<u8>, usize)>)
    ensures
        match r {
            Some((v, p)) => parse_bytes(b@, at as int) == Some((v@, p as int)),
            None => parse_bytes(b@, at as int) is None,
        },
{
    match read_uint(b, at, 8) {
        None => None,
        Some((len, p)) => {
            if len > (b.len() - p) as u128 {
                None
            } else {
                let end = p + len as usize;
                let v = vstd::slice::slice_to_vec(vstd::slice::slice_subrange(b, p, end));
                Some((v, end))
            }
        },
    }
}

/// Reads a 64-bit length and that many bytes of UTF-8 text.
pub fn read_str(b: &[u8], at: usize) -> (r: Option<(String, usize)>)
    ensures
        match r {
            Some((s, p)) => parse_str(b@, at as int) == Some((s@, p as int)),
            None => parse_str(b@, at as int) is None,
        },
{
    match read_bytes(b, at) {
        None => None,
        Some((v, p)) => match text_from_utf8(v) {
            Some(s) => Some((s, p)),
            None => None,
        },
    }
}

/// Reads a 32-bit two's-complement number.
pub fn read_i32(b: &[u8], at: usize) -> (r: Option<(i32, usize)>)
    ensures
        match r {
            Some((v, p)) => parse_i32(b@, at as int) == Some((v, p as int)),
            None => parse_i32(b@, at as int) is None,
        },
{
    match read_uint(b, at, 4) {
        None => None,
        Some((v, p)) => {
            proof {
                lemma_pow256_16();
                lemma_le_value_bound(b@.subrange(at as int, at + 4));
            }
            let x: i32 = if v < 0x8000_0000 {
                v as i32
            } else {
                (v as i64 - 0x1_0000_0000i64) as i32
            };
            Some((x, p))
        },
    }
}

fn read_input(b: &[u8], at: usize) -> (r: Option<(TXInput, usize)>)
    ensures
        match r {
            Some((i, p)) => parse_input(b@, at as int) == Some((i@, p as int)),
            None => parse_input(b@, at as int) is None,
        },
{
    let (txid, pos1) = match read_str(b, at) {
        Some(x) => x,
        None => return None,
    };
    let (vout, pos2) = match read_i32(b, pos1) {
        Some(x) => x,
        None => return None,
    };
    let (signature, pos3) = match read_bytes(b, pos2) {
        Some(x) => x,
        None => return None,
    };
    let (pub_key, pos4) = match read_bytes(b, pos3) {
        Some(x) => x,
        None => return None,
    };
    Some((TXInput { txid, vout, signature, pub_key }, pos4))
}

fn read_output(b: &[u8], at: usize) -> (r: Option<(TXOutput, usize)>)
    ensures
        match r {
            Some((o, p)) => parse_output(b@, at as int) == Some((o@, p as int)),
            None => parse_output(b@, at as int) is None,
        },
{
    let (value, pos1) = match read_i32(b, at) {
        Some(x) => x,
        None => return None,
    };
    let (key, pos2) = match read_str(b, pos1) {
        Some(x) => x,
        None => return None,
    };
    Some((TXOutput { value, script_pub_key: key }, pos2))
}

/// Reads the encoding of a transaction at `at`; gives it and the position after it.
pub fn read_transaction(b: &[u8], at: usize) -> (r: Option<(Transaction, usize)>)
    ensures
        match r {
            Some((t, p)) => parse_tx(b@, at as int) == Some((t@, p as int)),
            None => parse_tx(b@, at as int) is None,
        },
{
    let (id, pos1) = match read_str(b, at) {
        Some(x) => x,
        None => return None,
    };
    let (n_in, pos2) = match read_uint(b, pos1, 8) {
        Some(x) => x,
        None => return None,
    };
    let mut vin: Vec<TXInput> = Vec::new();
    let mut in_pos = pos2;
    let mut i: u128 = 0;
    while i < n_in
        invariant
            i <= n_in,
            parse_str(b@, at as int) == Some((id@, pos1 as int)),
            parse_uint(b@, pos1 as int, 8) == Some((n_in as nat, pos2 as int)),
            parse_inputs(b@, pos2 as int, i as nat) == Some((vin@.map_values(|x: TXInput| x@), in_pos as int)),
        decreases n_in - i,
    {
        match read_input(b, in_pos) {
            Some((input, next)) => {
                let ghost before = vin@;
                vin.push(input);
                proof {
                    assert(vin@.map_values(|x: TXInput| x@) =~= before.map_values(|x: TXInput| x@).push(
                        input@,
                    ));
                }
                in_pos = next;
            },
            None => {
                proof {
                    lemma_inputs_fail_on(b@, pos2 as int, (i + 1) as nat, n_in as nat);
                }
                return None;
            },
        }
        i = i + 1;
    }
    let (n_out, pos4) = match read_uint(b, in_pos, 8) {
        Some(x) => x,
        None => return None,
    };
    let mut vout: Vec<TXOutput> = Vec::new();
    let mut out_pos = pos4;
    let mut j: u128 = 0;
    while j < n_out
        invariant
            j <= n_out,
            parse_str(b@, at as int) == Some((id@, pos1 as int)),
            parse_uint(b@, pos1 as int, 8) == Some((n_in as nat, pos2 as int)),
            parse_inputs(b@, pos2 as int, n_in as nat) == Some((vin@.map_values(|x: TXInput| x@), in_pos as int)),
            parse_uint(b@, in_pos as int, 8) == Some((n_out as nat, pos4 as int)),
            parse_outputs(b@, pos4 as int, j as nat) == Some((vout@.map_values(|x: TXOutput| x@), out_pos as int)),
        decreases n_out - j,
    {
        match read_output(b, out_pos) {
            Some((output, next)) => {
                let ghost before = vout@;
                vout.push(output);
                proof {
                    assert(vout@.map_values(|x: TXOutput| x@) =~= before.map_values(|x: TXOutput| x@).push(
                        output@,
                    ));
                }
                out_pos = next;
            },
            None => {
                proof {
                    lemma_outputs_fail_on(b@, pos4 as int, (j + 1) as nat, n_out as nat);
                }
                return None;
            },
        }
        j = j + 1;
    }
    Some((Transaction { id, vin, vout }, out_pos))
}

/// The transaction that `bytes` encode; `CorruptData` unless they hold
/// exactly one encoded transaction.
pub fn decode_transaction(bytes: &[u8]) -> (r: Result<Transaction, LedgerError>)
    ensures
        match r {
            Ok(t) => decoded_tx(bytes@) == Some(t@),
            Err(e) => e == LedgerError::CorruptData && decoded_tx(bytes@) is None,
        },
{
    match read_transaction(bytes, 0) {
        Some((t, end)) => if end == bytes.len() {
            Ok(t)
        } else {
            Err(LedgerError::CorruptData)
        },
        None => Err(LedgerError::CorruptData),
    }
}

pub open spec fn parse_txs(b: Seq<u8>, at: int, count: nat) -> Option<(Seq<TxModel>, int)>
    decreases count,
{
    if count == 0 {
        Some((Seq::empty(), at))
    } else {
        match parse_txs(b, at, (count - 1) as nat) {
            Some((s, p)) => match parse_tx(b, p) {
                Some((t, q)) => Some((s.push(t), q)),
                None => None,
            },
            None => None,
        }
    }
}

pub open spec fn parse_block(b: Seq<u8>, at: int) -> Option<(BlockModel, int)> {
    match parse_uint(b, at, 4) {
        Some((nonce, pos1)) => match parse_uint(b, pos1, 8) {
            Some((height, pos2)) => match parse_uint(b, pos2, 16) {
                Some((timestamp, pos3)) => match parse_str(b, pos3) {
                    Some((hash, pos4)) => match parse_str(b, pos4) {
                        Some((prev_hash, pos5)) => match parse_uint(b, pos5, 8) {
                            Some((n, pos6)) => match parse_txs(b, pos6, n) {
                                Some((txs, pos7)) => if height <= usize::MAX {
                                    Some(
                                        (
                                            BlockModel {
                                                nonce: nonce as u32,
                                                height: height as usize,
                                                timestamp: timestamp as u128,
                                                hash,
                                                prev_hash,
                                                txs,
                                            },
                                            pos7,
                                        ),
                                    )
                                } else {
                                    None
                                },
                                None => None,
                            },
                            None => None,
                        },
                        None => None,
                    },
                    None => None,
                },
                None => None,
            },
            None => None,
        },
        None => None,
    }
}

/// The block that `b` encodes, when `b` holds one and nothing more.
pub open spec fn decoded_block(b: Seq<u8>) -> Option<BlockModel> {
    match parse_block(b, 0) {
        Some((m, end)) => if end == b.len() {
            Some(m)
        } else {
            None
        },
        None => None,
    }
}

/// Every length in the block fits the encoding's 64-bit counts.
pub open spec fn block_fits(m: BlockModel) -> bool {
    &&& encode_utf8(m.hash).len() < pow256(8)
    &&& encode_utf8(m.prev_hash).len() < pow256(8)
    &&& m.txs.len() < pow256(8)
    &&& forall|i: int| 0 <= i < m.txs.len() ==> tx_fits(#[trigger] m.txs[i])
}

proof fn lemma_txs_rt(b: Seq<u8>, at: int, s: Seq<TxModel>)
    requires
        forall|i: int| 0 <= i < s.len() ==> tx_fits(#[trigger] s[i]),
        holds_at(b, at, enc_txs(s)),
    ensures
        parse_txs(b, at, s.len()) == Some((s, at + enc_txs(s).len())),
    decreases s.len(),
{
    if s.len() == 0 {
        assert(s =~= Seq::<TxModel>::empty());
    } else {
        let d = s.drop_last();
        lemma_holds_split(b, at, enc_txs(d), enc_tx(s.last()));
        lemma_txs_rt(b, at, d);
        assert(tx_fits(s[s.len() - 1]));
        lemma_tx_rt(b, at + enc_txs(d).len(), s.last());
        assert(d.push(s.last()) =~= s);
    }
}

#[verifier::spinoff_prover]
proof fn lemma_block_fields(m: BlockModel)
    requires
        block_fits(m),
    ensures
        ({
            let b = enc_block(m);
            let pos4 = (28 + enc_str(m.hash).len()) as int;
            let pos5 = (pos4 + enc_str(m.prev_hash).len()) as int;
            &&& parse_uint(b, 0, 4) == Some((m.nonce as nat, 4int))
            &&& parse_uint(b, 4, 8) == Some((m.height as nat, 12int))
            &&& parse_uint(b, 12, 16) == Some((m.timestamp as nat, 28int))
            &&& parse_str(b, 28) == Some((m.hash, pos4))
            &&& parse_str(b, pos4) == Some((m.prev_hash, pos5))
            &&& parse_uint(b, pos5, 8) == Some((m.txs.len(), pos5 + 8))
            &&& parse_txs(b, pos5 + 8, m.txs.len()) == Some((m.txs, b.len() as int))
        }),
{
    let b = enc_block(m);
    let e1 = le_bytes(m.nonce as nat, 4);
    let e2 = enc_u64(m.height as nat);
    let e3 = le_bytes(m.timestamp as nat, 16);
    let e4 = enc_str(m.hash);
    let e5 = enc_str(m.prev_hash);
    let e6 = enc_u64(m.txs.len());
    let e7 = enc_txs(m.txs);
    let h6 = e1 + e2 + e3 + e4 + e5 + e6;
    let h5 = e1 + e2 + e3 + e4 + e5;
    let h4 = e1 + e2 + e3 + e4;
    let h3 = e1 + e2 + e3;
    let h2 = e1 + e2;
    lemma_le_len(m.nonce as nat, 4);
    lemma_le_len(m.height as nat, 8);
    lemma_le_len(m.timestamp as nat, 16);
    lemma_le_len(m.txs.len(), 8);
    lemma_pow256_16();
    assert(holds_at(b, 0, h6) && holds_at(b, h6.len() as int, e7)) by {
        assert(b.subrange(0, b.len() as int) =~= b);
        lemma_holds_split(b, 0, h6, e7);
    }
    assert(holds_at(b, 0, h5) && holds_at(b, h5.len() as int, e6)) by {
        lemma_holds_split(b, 0, h5, e6);
    }
    assert(holds_at(b, 0, h4) && holds_at(b, h4.len() as int, e5)) by {
        lemma_holds_split(b, 0, h4, e5);
    }
    assert(holds_at(b, 0, h3) && holds_at(b, 28, e4)) by {
        lemma_holds_split(b, 0, h3, e4);
    }
    assert(holds_at(b, 0, h2) && holds_at(b, 12, e3)) by {
        lemma_holds_split(b, 0, h2, e3);
    }
    assert(holds_at(b, 0, e1) && holds_at(b, 4, e2)) by {
        lemma_holds_split(b, 0, e1, e2);
    }
    lemma_uint_rt(b, 0, m.nonce as nat, 4);
    lemma_uint_rt(b, 4, m.height as nat, 8);
    lemma_uint_rt(b, 12, m.timestamp as nat, 16);
    lemma_str_rt(b, 28, m.hash);
    lemma_str_rt(b, h4.len() as int, m.prev_hash);
    lemma_uint_rt(b, h5.len() as int, m.txs.len(), 8);
    lemma_txs_rt(b, h6.len() as int, m.txs);
}

/// Decoding the stored encoding of a block gives back the same block, hash included.
pub proof fn lemma_block_round_trip(m: BlockModel)
    requires
        block_fits(m),
    ensures
        decoded_block(enc_block(m)) == Some(m),
{
    lemma_block_fields(m);
}

proof fn lemma_txs_fail_on(b: Seq<u8>, at: int, k: nat, m: nat)
    requires
        k <= m,
        parse_txs(b, at, k) is None,
    ensures
        parse_txs(b, at, m) is None,
    decreases m,
{
    if k < m {
        lemma_txs_fail_on(b, at, k, (m - 1) as nat);
    }
}

/// Reads `count` transactions at `at`, one after another.
pub fn read_transactions(b: &[u8], at: usize, count: u128) -> (r: Option<(Vec<Transaction>, usize)>)
    ensures
        match r {
            Some((v, p)) => parse_txs(b@, at as int, count as nat) == Some((models(v@), p as int)),
            None => parse_txs(b@, at as int, count as nat) is None,
        },
{
    let mut txs: Vec<Transaction> = Vec::new();
    let mut pos = at;
    let mut i: u128 = 0;
    while i < count
        invariant
            i <= count,
            parse_txs(b@, at as int, i as nat) == Some((models(txs@), pos as int)),
        decreases count - i,
    {
        match read_transaction(b, pos) {
            Some((t, next)) => {
                let ghost before = txs@;
                txs.push(t);
                proof {
                    assert(models(txs@) =~= models(before).push(t@));
                }
                pos = next;
            },
            None => {
                proof {
                    lemma_txs_fail_on(b@, at as int, (i + 1) as nat, count as nat);
                }
                return None;
            },
        }
        i = i + 1;
    }
    Some((txs, pos))
}

/// Reads a 32-bit little-endian number.
pub fn read_u32(b: &[u8], at: usize) -> (r: Option<(u32, usize)>)
    ensures
        match r {
            Some((v, p)) => parse_uint(b@, at as int, 4) == Some((v as nat, p as int)),
            None => parse_uint(b@, at as int, 4) is None,
        },
{
    match read_uint(b, at, 4) {
        Some((v, p)) => {
            proof {
                lemma_pow256_16();
                lemma_le_value_bound(b@.subrange(at as int, at + 4));
            }
            Some((v as u32, p))
        },
        None => None,
    }
}

/// Reads a 64-bit little-endian number.
pub fn read_u64(b: &[u8], at: usize) -> (r: Option<(u64, usize)>)
    ensures
        match r {
            Some((v, p)) => parse_uint(b@, at as int, 8) == Some((v as nat, p as int)),
            None => parse_uint(b@, at as int, 8) is None,
        },
{
    match read_uint(b, at, 8) {
        Some((v, p)) => {
            proof {
                lemma_pow256_16();
                lemma_le_value_bound(b@.subrange(at as int, at + 8));
            }
            Some((v as u64, p))
        },
        None => None,
    }
}

} // verus!
