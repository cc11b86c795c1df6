//! Transactions: inputs that consume prior outputs and newly created
//! outputs, with their canonical encodings and hashes.
use crate::codec::{
    decode_bytes, decode_u128, decode_u64, enc_bytes, enc_u128, enc_u64, encode_bytes, encode_u128,
    encode_u64, read_vec,
};
use crate::crypto::{PublicKey, Signature};
use crate::hash::sha256_of;
use vstd::prelude::*;

verus! {

/// Ghost form of a transaction input.
pub ghost struct TxInV {
    /// Hash of the consumed output, 32 bytes.
    pub prev: Seq<u8>,
    /// Signature over those 32 bytes in little-endian order.
    pub sig: Seq<u8>,
}

/// Ghost form of a transaction output.
pub ghost struct TxOutV {
    pub value: u64,
    pub unique_id: u128,
    pub pubkey: Seq<u8>,
}

/// Ghost form of a transaction.
pub ghost struct TxV {
    pub inputs: Seq<TxInV>,
    pub outputs: Seq<TxOutV>,
}

impl TxInV {
    pub open spec fn wf(self) -> bool {
        self.prev.len() == 32
    }
}

impl TxV {
    pub open spec fn wf(self) -> bool {
        forall|i: int| 0 <= i < self.inputs.len() ==> (#[trigger] self.inputs[i]).wf()
    }
}

/// A reference to an unspent output, signed by the key that controls it.
pub struct TransactionInput {
    /// Hash of the output this input consumes.
    pub prev_transaction_output_hash: crate::hash::Hash,
    /// Signature over that hash by the key controlling the output.
    pub signature: Signature,
}

/// A discrete spendable coin. The unique id makes two outputs of equal
/// value and owner hash differently, because outputs are indexed by their
/// own hash.
pub struct TransactionOutput {
    pub value: u64,
    pub unique_id: u128,
    pub pubkey: PublicKey,
}

/// A transfer: inputs consumed, outputs created. A coinbase transaction
/// has no inputs.
pub struct Transaction {
    pub inputs: Vec<TransactionInput>,
    pub outputs: Vec<TransactionOutput>,
}

impl View for TransactionInput {
    type V = TxInV;

    open spec fn view(&self) -> TxInV {
        TxInV { prev: self.prev_transaction_output_hash@, sig: self.signature@ }
    }
}

impl View for TransactionOutput {
    type V = TxOutV;

    open spec fn view(&self) -> TxOutV {
        TxOutV { value: self.value, unique_id: self.unique_id, pubkey: self.pubkey@ }
    }
}

impl View for Transaction {
    type V = TxV;

    open spec fn view(&self) -> TxV {
        TxV {
            inputs: self.inputs@.map_values(|x: TransactionInput| x@),
            outputs: self.outputs@.map_values(|x: TransactionOutput| x@),
        }
    }
}

/// Canonical bytes of an input: the 32 hash bytes, then the signature.
pub open spec fn enc_txin(t: TxInV) -> Seq<u8> {
    t.prev + enc_bytes(t.sig)
}

/// Canonical bytes of an output.
pub open spec fn enc_txout(o: TxOutV) -> Seq<u8> {
    enc_u64(o.value) + enc_u128(o.unique_id) + enc_bytes(o.pubkey)
}

/// Canonical bytes of a list of inputs, without a count.
pub open spec fn enc_txin_seq(s: Seq<TxInV>) -> Seq<u8>
    decreases s.len(),
{
    if s.len() == 0 {
        Seq::empty()
    } else {
        enc_txin(s.first()) + enc_txin_seq(s.drop_first())
    }
}

/// Canonical bytes of a list of outputs, without a count.
pub open spec fn enc_txout_seq(s: Seq<TxOutV>) -> Seq<u8>
    decreases s.len(),
{
    if s.len() == 0 {
        Seq::empty()
    } else {
        enc_txout(s.first()) + enc_txout_seq(s.drop_first())
    }
}

/// Canonical bytes of a transaction: counted input and output lists.
pub open spec fn enc_tx(t: TxV) -> Seq<u8> {
    enc_u64(t.inputs.len() as u64) + enc_txin_seq(t.inputs) + enc_u64(t.outputs.len() as u64)
        + enc_txout_seq(t.outputs)
}

/// The hash bytes of an output: SHA-256 of its canonical encoding.
pub open spec fn out_hash(o: TxOutV) -> Seq<u8> {
    sha256_of(enc_txout(o))
}

/// The hash bytes of a transaction: SHA-256 of its canonical encoding.
pub open spec fn tx_hash(t: TxV) -> Seq<u8> {
    sha256_of(enc_tx(t))
}

impl TransactionOutput {
    /// The hash under which this output is indexed.
    pub fn hash(&self) -> (r: crate::hash::Hash)
        ensures
            r@ == out_hash(self@),
            r.wf(),
    {
        let mut bytes: Vec<u8> = Vec::new();
        encode_txout(&mut bytes, self);
        proof {
            assert(bytes@ =~= enc_txout(self@));
        }
        crate::hash::Hash::of_bytes(&bytes)
    }
}

impl Transaction {
    pub fn new(inputs: Vec<TransactionInput>, outputs: Vec<TransactionOutput>) -> (r: Transaction)
        ensures
            r@.inputs == inputs@.map_values(|x: TransactionInput| x@),
            r@.outputs == outputs@.map_values(|x: TransactionOutput| x@),
    {
        Transaction { inputs, outputs }
    }

    /// The hash that identifies this transaction.
    pub fn hash(&self) -> (r: crate::hash::Hash)
        ensures
            r@ == tx_hash(self@),
            r.wf(),
    {
        let mut bytes: Vec<u8> = Vec::new();
        encode_tx(&mut bytes, self);
        crate::hash::Hash::of_bytes(&bytes)
    }
}

impl Clone for TransactionInput {
    fn clone(&self) -> (r: Self)
        ensures
            r@ == self@,
    {
        TransactionInput {
            prev_transaction_output_hash: self.prev_transaction_output_hash.clone(),
            signature: self.signature.clone(),
        }
    }
}

impl Clone for TransactionOutput {
    fn clone(&self) -> (r: Self)
        ensures
            r@ == self@,
    {
        TransactionOutput {
            value: self.value,
            unique_id: self.unique_id,
            pubkey: self.pubkey.clone(),
        }
    }
}

/// A fresh copy of a list of inputs, with the same views.
pub fn clone_inputs(v: &Vec<TransactionInput>) -> (r: Vec<TransactionInput>)
    ensures
        r@.map_values(|x: TransactionInput| x@) == v@.map_values(|x: TransactionInput| x@),
        r@.len() == v@.len(),
{
    let mut out: Vec<TransactionInput> = Vec::new();
    let mut i: usize = 0;
    while i < v.len()
        invariant
            i <= v@.len(),
            out@.len() == i,
            forall|j: int| 0 <= j < i ==> (#[trigger] out@[j])@ == v@[j]@,
        decreases v@.len() - i,
    {
        out.push(v[i].clone());
        i = i + 1;
    }
    proof {
        assert(out@.map_values(|x: TransactionInput| x@) =~= v@.map_values(
            |x: TransactionInput| x@,
        ));
    }
    out
}

/// A fresh copy of a list of outputs, with the same views.
pub fn clone_outputs(v: &Vec<TransactionOutput>) -> (r: Vec<TransactionOutput>)
    ensures
        r@.map_values(|x: TransactionOutput| x@) == v@.map_values(|x: TransactionOutput| x@),
        r@.len() == v@.len(),
{
    let mut out: Vec<TransactionOutput> = Vec::new();
    let mut i: usize = 0;
    while i < v.len()
        invariant
            i <= v@.len(),
            out@.len() == i,
            forall|j: int| 0 <= j < i ==> (#[trigger] out@[j])@ == v@[j]@,
        decreases v@.len() - i,
    {
        out.push(v[i].clone());
        i = i + 1;
    }
    proof {
        assert(out@.map_values(|x: TransactionOutput| x@) =~= v@.map_values(
            |x: TransactionOutput| x@,
        ));
    }
    out
}

/// A fresh copy of a list of transactions, with the same views.
pub fn clone_txs(v: &Vec<Transaction>) -> (r: Vec<Transaction>)
    ensures
        r@.map_values(|x: Transaction| x@) == v@.map_values(|x: Transaction| x@),
        r@.len() == v@.len(),
{
    let mut out: Vec<Transaction> = Vec::new();
    let mut i: usize = 0;
    while i < v.len()
        invariant
            i <= v@.len(),
            out@.len() == i,
            forall|j: int| 0 <= j < i ==> (#[trigger] out@[j])@ == v@[j]@,
        decreases v@.len() - i,
    {
        out.push(v[i].clone());
        i = i + 1;
    }
    proof {
        assert(out@.map_values(|x: Transaction| x@) =~= v@.map_values(|x: Transaction| x@));
    }
    out
}

impl Clone for Transaction {
    fn clone(&self) -> (r: Self)
        ensures
            r@ == self@,
    {
        let r = Transaction {
            inputs: clone_inputs(&self.inputs),
            outputs: clone_outputs(&self.outputs),
        };
        proof {
            assert(r@ == self@);
        }
        r
    }
}

/// Appends the canonical bytes of an input.
pub fn encode_txin(out: &mut Vec<u8>, t: &TransactionInput)
    ensures
        final(out)@ == old(out)@ + enc_txin(t@),
{
    let h = t.prev_transaction_output_hash.as_be_bytes();
    let mut i: usize = 0;
    let ghost pre = out@;
    while i < h.len()
        invariant
            i <= h@.len(),
            h@ == t@.prev,
            out@ == pre + h@.take(i as int),
        decreases h@.len() - i,
    {
        out.push(h[i]);
        proof {
            assert(out@ =~= pre + h@.take(i + 1));
        }
        i = i + 1;
    }
    proof {
        assert(h@.take(h@.len() as int) =~= h@);
    }
    encode_bytes(out, t.signature.as_bytes());
    proof {
        assert(out@ =~= old(out)@ + enc_txin(t@));
    }
}

/// Appends the canonical bytes of an output.
pub fn encode_txout(out: &mut Vec<u8>, o: &TransactionOutput)
    ensures
        final(out)@ == old(out)@ + enc_txout(o@),
{
    encode_u64(out, o.value);
    encode_u128(out, o.unique_id);
    encode_bytes(out, o.pubkey.as_bytes());
    proof {
        assert(out@ =~= old(out)@ + enc_txout(o@));
    }
}

/// Appends the canonical bytes of a transaction.
pub fn encode_tx(out: &mut Vec<u8>, t: &Transaction)
    ensures
        final(out)@ == old(out)@ + enc_tx(t@),
{
    encode_u64(out, t.inputs.len() as u64);
    let ghost after_count = out@;
    let mut i: usize = 0;
    while i < t.inputs.len()
        invariant
            i <= t.inputs@.len(),
            t@.inputs == t.inputs@.map_values(|x: TransactionInput| x@),
            out@ == after_count + enc_txin_seq(t@.inputs.take(i as int)),
        decreases t.inputs@.len() - i,
    {
        encode_txin(out, &t.inputs[i]);
        proof {
            lemma_enc_txin_seq_snoc(t@.inputs, i as int);
        }
        i = i + 1;
    }
    proof {
        assert(t@.inputs.take(t@.inputs.len() as int) =~= t@.inputs);
    }
    encode_u64(out, t.outputs.len() as u64);
    let ghost after_outs = out@;
    let mut j: usize = 0;
    while j < t.outputs.len()
        invariant
            j <= t.outputs@.len(),
            t@.outputs == t.outputs@.map_values(|x: TransactionOutput| x@),
            out@ == after_outs + enc_txout_seq(t@.outputs.take(j as int)),
        decreases t.outputs@.len() - j,
    {
        encode_txout(out, &t.outputs[j]);
        proof {
            lemma_enc_txout_seq_snoc(t@.outputs, j as int);
        }
        j = j + 1;
    }
    proof {
        assert(t@.outputs.take(t@.outputs.len() as int) =~= t@.outputs);
        assert(out@ =~= old(out)@ + enc_tx(t@));
    }
}

/// Reads back one input.
pub fn decode_txin(buf: &Vec<u8>, pos: usize) -> (r: Option<(TransactionInput, usize)>)
    requires
        pos <= buf@.len(),
    ensures
        r matches Some((t, p)) ==> pos < p <= buf@.len() && t@.wf(),
        forall|tv: TxInV, rest: Seq<u8>|
            tv.wf() && buf@.skip(pos as int) == #[trigger] (enc_txin(tv) + rest) ==> (r matches Some(
                (t, p),
            ) && t@ == tv && p == pos + enc_txin(tv).len()),
{
    proof {
        crate::codec::lemma_buf_len_bound(buf);
    }
    if buf.len() - pos < 32 {
        proof {
            assert forall|tv: TxInV, rest: Seq<u8>|
                tv.wf() && buf@.skip(pos as int) == #[trigger] (enc_txin(tv) + rest) implies false by {
                assert(enc_txin(tv).len() >= 40);
                assert(buf@.skip(pos as int).len() == buf@.len() - pos);
            }
        }
        return None;
    }
    let hash_bytes = read_vec(buf, pos, 32);
    let mid: usize = pos + 32;
    match decode_bytes(buf, mid) {
        None => {
            proof {
                assert forall|tv: TxInV, rest: Seq<u8>|
                    tv.wf() && buf@.skip(pos as int) == #[trigger] (enc_txin(tv) + rest) implies false by {
                    lemma_txin_split(buf@, pos as int, tv, rest);
                }
            }
            None
        },
        Some((sig, p)) => {
            let t = TransactionInput {
                prev_transaction_output_hash: crate::hash::Hash::from_be_bytes(hash_bytes),
                signature: Signature::from_bytes(sig),
            };
            proof {
                assert forall|tv: TxInV, rest: Seq<u8>|
                    tv.wf() && buf@.skip(pos as int) == #[trigger] (enc_txin(tv) + rest) implies t@
                    == tv && p == pos + enc_txin(tv).len() by {
                    lemma_txin_split(buf@, pos as int, tv, rest);
                    assert(t@.prev =~= tv.prev);
                }
            }
            Some((t, p))
        },
    }
}

/// What an input encoding at a position forces about the buffer.
proof fn lemma_txin_split(b: Seq<u8>, pos: int, tv: TxInV, rest: Seq<u8>)
    requires
        0 <= pos <= b.len(),
        tv.wf(),
        b.skip(pos) == enc_txin(tv) + rest,
    ensures
        b.len() >= pos + enc_txin(tv).len(),
        b.subrange(pos, pos + 32) == tv.prev,
        b.skip(pos + 32) == enc_bytes(tv.sig) + rest,
{
    assert(b.skip(pos).len() == b.len() - pos);
    assert(enc_txin(tv).len() == 32 + enc_bytes(tv.sig).len());
    assert forall|j: int| 0 <= j < 32 implies b.subrange(pos, pos + 32)[j] == tv.prev[j] by {
        assert(b.skip(pos)[j] == (enc_txin(tv) + rest)[j]);
        assert((enc_txin(tv) + rest)[j] == enc_txin(tv)[j]);
        assert(enc_txin(tv)[j] == tv.prev[j]);
    }
    assert(b.subrange(pos, pos + 32) =~= tv.prev);
    assert forall|j: int| 0 <= j < b.len() - pos - 32 implies b.skip(pos + 32)[j] == (enc_bytes(
        tv.sig,
    ) + rest)[j] by {
        assert(b.skip(pos + 32)[j] == b.skip(pos)[j + 32]);
        assert((enc_txin(tv) + rest)[j + 32] == (enc_bytes(tv.sig) + rest)[j]);
    }
    assert(b.skip(pos + 32) =~= enc_bytes(tv.sig) + rest);
}

/// Reads back one output.
pub fn decode_txout(buf: &Vec<u8>, pos: usize) -> (r: Option<(TransactionOutput, usize)>)
    requires
        pos <= buf@.len(),
    ensures
        r matches Some((o, p)) ==> pos < p <= buf@.len(),
        forall|ov: TxOutV, rest: Seq<u8>|
            buf@.skip(pos as int) == #[trigger] (enc_txout(ov) + rest) ==> (r matches Some((o, p))
                && o@ == ov && p == pos + enc_txout(ov).len()),
{
    proof {
        crate::codec::lemma_buf_len_bound(buf);
        crate::numeric::lemma_pow256_units();
    }
    if buf.len() - pos < 24 {
        proof {
            assert forall|ov: TxOutV, rest: Seq<u8>|
                buf@.skip(pos as int) == #[trigger] (enc_txout(ov) + rest) implies false by {
                lemma_txout_split(buf@, pos as int, ov, rest);
            }
        }
        return None;
    }
    let value = match decode_u64(buf, pos) {
        Some((v, _)) => v,
        None => {
            return None;
        },
    };
    let unique_id = match decode_u128(buf, pos + 8) {
        Some((v, _)) => v,
        None => {
            return None;
        },
    };
    match decode_bytes(buf, pos + 24) {
        None => {
            proof {
                assert forall|ov: TxOutV, rest: Seq<u8>|
                    buf@.skip(pos as int) == #[trigger] (enc_txout(ov) + rest) implies false by {
                    lemma_txout_split(buf@, pos as int, ov, rest);
                }
            }
            None
        },
        Some((pk, p)) => {
            let o = TransactionOutput {
                value,
                unique_id,
                pubkey: PublicKey::from_bytes(pk),
            };
            proof {
                assert forall|ov: TxOutV, rest: Seq<u8>|
                    buf@.skip(pos as int) == #[trigger] (enc_txout(ov) + rest) implies o@ == ov && p
                    == pos + enc_txout(ov).len() by {
                    lemma_txout_split(buf@, pos as int, ov, rest);
                    crate::numeric::lemma_bytes_of_exact(ov.value as nat, 8);
                    crate::numeric::lemma_bytes_of_exact(ov.unique_id as nat, 16);
                }
            }
            Some((o, p))
        },
    }
}

/// What an output encoding at a position forces about the buffer.
proof fn lemma_txout_split(b: Seq<u8>, pos: int, ov: TxOutV, rest: Seq<u8>)
    requires
        0 <= pos <= b.len(),
        b.skip(pos) == enc_txout(ov) + rest,
    ensures
        b.len() >= pos + enc_txout(ov).len(),
        enc_txout(ov).len() == 32 + ov.pubkey.len(),
        b.subrange(pos, pos + 8) == enc_u64(ov.value),
        b.subrange(pos + 8, pos + 24) == enc_u128(ov.unique_id),
        b.skip(pos + 24) == enc_bytes(ov.pubkey) + rest,
{
    assert(b.skip(pos).len() == b.len() - pos);
    assert(enc_txout(ov).len() == 8 + 16 + 8 + ov.pubkey.len());
    assert forall|j: int| 0 <= j < 8 implies b.subrange(pos, pos + 8)[j] == enc_u64(ov.value)[j] by {
        assert(b.skip(pos)[j] == (enc_txout(ov) + rest)[j]);
        assert((enc_txout(ov) + rest)[j] == enc_txout(ov)[j]);
    }
    assert(b.subrange(pos, pos + 8) =~= enc_u64(ov.value));
    assert forall|j: int| 0 <= j < 16 implies b.subrange(pos + 8, pos + 24)[j] == enc_u128(
        ov.unique_id,
    )[j] by {
        assert(b.skip(pos)[j + 8] == (enc_txout(ov) + rest)[j + 8]);
        assert((enc_txout(ov) + rest)[j + 8] == enc_txout(ov)[j + 8]);
        assert(enc_txout(ov)[j + 8] == enc_u128(ov.unique_id)[j]);
    }
    assert(b.subrange(pos + 8, pos + 24) =~= enc_u128(ov.unique_id));
    assert forall|j: int| 0 <= j < b.len() - pos - 24 implies b.skip(pos + 24)[j] == (enc_bytes(
        ov.pubkey,
    ) + rest)[j] by {
        assert(b.skip(pos + 24)[j] == b.skip(pos)[j + 24]);
        assert((enc_txout(ov) + rest)[j + 24] == (enc_bytes(ov.pubkey) + rest)[j]);
    }
    assert(b.skip(pos + 24) =~= enc_bytes(ov.pubkey) + rest);
}

/// Whether every input in a list is well formed.
pub open spec fn wf_txin_seq(s: Seq<TxInV>) -> bool {
    forall|i: int| 0 <= i < s.len() ==> (#[trigger] s[i]).wf()
}

/// Reads back `n` inputs.
pub fn decode_txin_list(buf: &Vec<u8>, pos: usize, n: u64) -> (r: Option<
    (Vec<TransactionInput>, usize),
>)
    requires
        pos <= buf@.len(),
    ensures
        r matches Some((v, p)) ==> pos <= p <= buf@.len() && v@.len() == n && wf_txin_seq(
            v@.map_values(|x: TransactionInput| x@),
        ),
        forall|s: Seq<TxInV>, rest: Seq<u8>|
            s.len() == n && wf_txin_seq(s) && buf@.skip(pos as int) == #[trigger] (enc_txin_seq(s)
                + rest) ==> (r matches Some((v, p)) && v@.map_values(|x: TransactionInput| x@) == s
                && p == pos + enc_txin_seq(s).len()),
    decreases n,
{
    if n == 0 {
        let v: Vec<TransactionInput> = Vec::new();
        proof {
            assert(v@.map_values(|x: TransactionInput| x@) =~= Seq::<TxInV>::empty());
            assert forall|s: Seq<TxInV>, rest: Seq<u8>|
                s.len() == 0 && buf@.skip(pos as int) == #[trigger] (enc_txin_seq(s)
                    + rest) implies v@.map_values(|x: TransactionInput| x@) == s && enc_txin_seq(
                s,
            ).len() == 0 by {
                assert(s =~= Seq::<TxInV>::empty());
            }
        }
        return Some((v, pos));
    }
    match decode_txin(buf, pos) {
        None => {
            proof {
                assert forall|s: Seq<TxInV>, rest: Seq<u8>|
                    s.len() == n && wf_txin_seq(s) && buf@.skip(pos as int) == #[trigger] (
                enc_txin_seq(s) + rest) implies false by {
                    lemma_txin_seq_head(buf@, pos as int, s, rest);
                }
            }
            None
        },
        Some((e, p1)) => {
            match decode_txin_list(buf, p1, n - 1) {
                None => {
                    proof {
                        assert forall|s: Seq<TxInV>, rest: Seq<u8>|
                            s.len() == n && wf_txin_seq(s) && buf@.skip(pos as int) == #[trigger] (
                        enc_txin_seq(s) + rest) implies false by {
                            lemma_txin_seq_head(buf@, pos as int, s, rest);
                            crate::codec::lemma_skip_prefix(buf@, pos as int, enc_txin(s.first()),
                                enc_txin_seq(s.drop_first()) + rest);
                            assert(s.drop_first().len() == n - 1);
                            assert(wf_txin_seq(s.drop_first()));
                        }
                    }
                    None
                },
                Some((mut v, p2)) => {
                    let ghost tail_views = v@.map_values(|x: TransactionInput| x@);
                    v.insert(0, e);
                    proof {
                        assert(v@.map_values(|x: TransactionInput| x@) =~= tail_views.insert(
                            0,
                            e@,
                        ));
                        assert forall|s: Seq<TxInV>, rest: Seq<u8>|
                            s.len() == n && wf_txin_seq(s) && buf@.skip(pos as int) == #[trigger] (
                        enc_txin_seq(s) + rest) implies v@.map_values(|x: TransactionInput| x@) == s
                            && p2 == pos + enc_txin_seq(s).len() by {
                            lemma_txin_seq_head(buf@, pos as int, s, rest);
                            crate::codec::lemma_skip_prefix(buf@, pos as int, enc_txin(s.first()),
                                enc_txin_seq(s.drop_first()) + rest);
                            assert(s.drop_first().len() == n - 1);
                            assert(wf_txin_seq(s.drop_first()));
                            assert(tail_views == s.drop_first());
                            assert(v@.map_values(|x: TransactionInput| x@) =~= s);
                        }
                        assert(wf_txin_seq(v@.map_values(|x: TransactionInput| x@))) by {
                            let m = v@.map_values(|x: TransactionInput| x@);
                            assert forall|i: int| 0 <= i < m.len() implies (#[trigger] m[i]).wf()
                            by {
                                if i > 0 {
                                    assert(tail_views[i - 1].wf());
                                    assert(m[i] == tail_views[i - 1]);
                                } else {
                                    assert(m[0] == e@);
                                }
                            }
                        }
                    }
                    Some((v, p2))
                },
            }
        },
    }
}

/// Splitting the encoding of a non-empty input list at its first element.
proof fn lemma_txin_seq_head(b: Seq<u8>, pos: int, s: Seq<TxInV>, rest: Seq<u8>)
    requires
        0 <= pos <= b.len(),
        s.len() > 0,
        wf_txin_seq(s),
        b.skip(pos) == enc_txin_seq(s) + rest,
    ensures
        s.first().wf(),
        b.skip(pos) == enc_txin(s.first()) + (enc_txin_seq(s.drop_first()) + rest),
        enc_txin_seq(s).len() == enc_txin(s.first()).len() + enc_txin_seq(s.drop_first()).len(),
{
    assert(s[0].wf());
    assert(enc_txin_seq(s) == enc_txin(s.first()) + enc_txin_seq(s.drop_first()));
    assert((enc_txin(s.first()) + enc_txin_seq(s.drop_first())) + rest =~= enc_txin(s.first()) + (
    enc_txin_seq(s.drop_first()) + rest));
}

/// Reads back `n` outputs.
pub fn decode_txout_list(buf: &Vec<u8>, pos: usize, n: u64) -> (r: Option<
    (Vec<TransactionOutput>, usize),
>)
    requires
        pos <= buf@.len(),
    ensures
        r matches Some((v, p)) ==> pos <= p <= buf@.len() && v@.len() == n,
        forall|s: Seq<TxOutV>, rest: Seq<u8>|
            s.len() == n && buf@.skip(pos as int) == #[trigger] (enc_txout_seq(s) + rest) ==> (
            r matches Some((v, p)) && v@.map_values(|x: TransactionOutput| x@) == s && p == pos
                + enc_txout_seq(s).len()),
    decreases n,
{
    if n == 0 {
        let v: Vec<TransactionOutput> = Vec::new();
        proof {
            assert(v@.map_values(|x: TransactionOutput| x@) =~= Seq::<TxOutV>::empty());
            assert forall|s: Seq<TxOutV>, rest: Seq<u8>|
                s.len() == 0 && buf@.skip(pos as int) == #[trigger] (enc_txout_seq(s)
                    + rest) implies v@.map_values(|x: TransactionOutput| x@) == s && enc_txout_seq(
                s,
            ).len() == 0 by {
                assert(s =~= Seq::<TxOutV>::empty());
            }
        }
        return Some((v, pos));
    }
    match decode_txout(buf, pos) {
        None => {
            proof {
                assert forall|s: Seq<TxOutV>, rest: Seq<u8>|
                    s.len() == n && buf@.skip(pos as int) == #[trigger] (enc_txout_seq(s)
                        + rest) implies false by {
                    lemma_txout_seq_head(buf@, pos as int, s, rest);
                }
            }
            None
        },
        Some((e, p1)) => {
            match decode_txout_list(buf, p1, n - 1) {
                None => {
                    proof {
                        assert forall|s: Seq<TxOutV>, rest: Seq<u8>|
                            s.len() == n && buf@.skip(pos as int) == #[trigger] (enc_txout_seq(s)
                                + rest) implies false by {
                            lemma_txout_seq_head(buf@, pos as int, s, rest);
                            crate::codec::lemma_skip_prefix(buf@, pos as int, enc_txout(s.first()),
                                enc_txout_seq(s.drop_first()) + rest);
                            assert(s.drop_first().len() == n - 1);
                        }
                    }
                    None
                },
                Some((mut v, p2)) => {
                    let ghost tail_views = v@.map_values(|x: TransactionOutput| x@);
                    v.insert(0, e);
                    proof {
                        assert(v@.map_values(|x: TransactionOutput| x@) =~= tail_views.insert(
                            0,
                            e@,
                        ));
                        assert forall|s: Seq<TxOutV>, rest: Seq<u8>|
                            s.len() == n && buf@.skip(pos as int) == #[trigger] (enc_txout_seq(s)
                                + rest) implies v@.map_values(|x: TransactionOutput| x@) == s && p2
                            == pos + enc_txout_seq(s).len() by {
                            lemma_txout_seq_head(buf@, pos as int, s, rest);
                            crate::codec::lemma_skip_prefix(buf@, pos as int, enc_txout(s.first()),
                                enc_txout_seq(s.drop_first()) + rest);
                            assert(s.drop_first().len() == n - 1);
                            assert(tail_views == s.drop_first());
                            assert(v@.map_values(|x: TransactionOutput| x@) =~= s);
                        }
                    }
                    Some((v, p2))
                },
            }
        },
    }
}

/// Splitting the encoding of a non-empty output list at its first element.
proof fn lemma_txout_seq_head(b: Seq<u8>, pos: int, s: Seq<TxOutV>, rest: Seq<u8>)
    requires
        0 <= pos <= b.len(),
        s.len() > 0,
        b.skip(pos) == enc_txout_seq(s) + rest,
    ensures
        b.skip(pos) == enc_txout(s.first()) + (enc_txout_seq(s.drop_first()) + rest),
        enc_txout_seq(s).len() == enc_txout(s.first()).len() + enc_txout_seq(s.drop_first()).len(),
{
    assert(enc_txout_seq(s) == enc_txout(s.first()) + enc_txout_seq(s.drop_first()));
    assert((enc_txout(s.first()) + enc_txout_seq(s.drop_first())) + rest =~= enc_txout(s.first())
        + (enc_txout_seq(s.drop_first()) + rest));
}

/// Reads back a transaction.
pub fn decode_tx(buf: &Vec<u8>, pos: usize) -> (r: Option<(Transaction, usize)>)
    requires
        pos <= buf@.len(),
    ensures
        r matches Some((t, p)) ==> pos <= p <= buf@.len() && t@.wf(),
        forall|tv: TxV, rest: Seq<u8>|
            tv.wf() && buf@.skip(pos as int) == #[trigger] (enc_tx(tv) + rest) ==> (r matches Some(
                (t, p),
            ) && t@ == tv && p == pos + enc_tx(tv).len()),
{
    proof {
        crate::codec::lemma_buf_len_bound(buf);
        crate::numeric::lemma_pow256_units();
    }
    let in_count = match decode_u64(buf, pos) {
        Some((v, _)) => v,
        None => {
            proof {
                assert forall|tv: TxV, rest: Seq<u8>|
                    tv.wf() && buf@.skip(pos as int) == #[trigger] (enc_tx(tv) + rest) implies false by {
                    lemma_tx_parts(buf@, pos as int, tv, rest);
                }
            }
            return None;
        },
    };
    let inputs = match decode_txin_list(buf, pos + 8, in_count) {
        Some((v, p)) => (v, p),
        None => {
            proof {
                assert forall|tv: TxV, rest: Seq<u8>|
                    tv.wf() && buf@.skip(pos as int) == #[trigger] (enc_tx(tv) + rest) implies false by {
                    lemma_tx_parts(buf@, pos as int, tv, rest);
                    crate::numeric::lemma_bytes_of_exact(tv.inputs.len(), 8);
                }
            }
            return None;
        },
    };
    let (ins, p1) = inputs;
    let out_count = match decode_u64(buf, p1) {
        Some((v, _)) => v,
        None => {
            proof {
                assert forall|tv: TxV, rest: Seq<u8>|
                    tv.wf() && buf@.skip(pos as int) == #[trigger] (enc_tx(tv) + rest) implies false by {
                    lemma_tx_parts(buf@, pos as int, tv, rest);
                    crate::numeric::lemma_bytes_of_exact(tv.inputs.len(), 8);
                }
            }
            return None;
        },
    };
    match decode_txout_list(buf, p1 + 8, out_count) {
        None => {
            proof {
                assert forall|tv: TxV, rest: Seq<u8>|
                    tv.wf() && buf@.skip(pos as int) == #[trigger] (enc_tx(tv) + rest) implies false by {
                    lemma_tx_parts(buf@, pos as int, tv, rest);
                    crate::numeric::lemma_bytes_of_exact(tv.inputs.len(), 8);
                    crate::numeric::lemma_bytes_of_exact(tv.outputs.len(), 8);
                }
            }
            None
        },
        Some((outs, p2)) => {
            let t = Transaction { inputs: ins, outputs: outs };
            proof {
                assert forall|tv: TxV, rest: Seq<u8>|
                    tv.wf() && buf@.skip(pos as int) == #[trigger] (enc_tx(tv) + rest) implies t@
                    == tv && p2 == pos + enc_tx(tv).len() by {
                    lemma_tx_parts(buf@, pos as int, tv, rest);
                    crate::numeric::lemma_bytes_of_exact(tv.inputs.len(), 8);
                    crate::numeric::lemma_bytes_of_exact(tv.outputs.len(), 8);
                }
            }
            Some((t, p2))
        },
    }
}

/// Splitting the encoding of a transaction at each of its four parts.
proof fn lemma_tx_parts(b: Seq<u8>, pos: int, tv: TxV, rest: Seq<u8>)
    requires
        0 <= pos <= b.len(),
        b.len() < crate::numeric::pow256(8),
        tv.wf(),
        b.skip(pos) == enc_tx(tv) + rest,
    ensures
        b.len() >= pos + enc_tx(tv).len(),
        pos + 8 <= b.len(),
        nat_of_sub8(b, pos) == tv.inputs.len(),
        tv.inputs.len() < crate::numeric::pow256(8),
        tv.outputs.len() < crate::numeric::pow256(8),
        wf_txin_seq(tv.inputs),
        b.skip(pos + 8) == enc_txin_seq(tv.inputs) + (enc_u64(tv.outputs.len() as u64)
            + enc_txout_seq(tv.outputs) + rest),
        nat_of_sub8(b, pos + 8 + enc_txin_seq(tv.inputs).len()) == tv.outputs.len(),
        b.skip(pos + 8 + enc_txin_seq(tv.inputs).len() + 8) == enc_txout_seq(tv.outputs) + rest,
        enc_tx(tv).len() == 8 + enc_txin_seq(tv.inputs).len() + 8 + enc_txout_seq(
            tv.outputs,
        ).len(),
{
    let e = enc_tx(tv);
    let li = enc_txin_seq(tv.inputs).len() as int;
    let lo = enc_txout_seq(tv.outputs).len() as int;
    assert(b.skip(pos).len() == b.len() - pos);
    assert(e.len() == 8 + li + 8 + lo);
    assert(tv.inputs.len() <= b.len()) by {
        lemma_txin_seq_len(tv.inputs);
    }
    assert(tv.outputs.len() <= b.len()) by {
        lemma_txout_seq_len(tv.outputs);
    }
    crate::numeric::lemma_pow256_units();
    crate::numeric::lemma_bytes_of_exact(tv.inputs.len(), 8);
    crate::numeric::lemma_bytes_of_exact(tv.outputs.len(), 8);
    assert(b.subrange(pos, pos + 8) =~= enc_u64(tv.inputs.len() as u64)) by {
        assert forall|j: int| 0 <= j < 8 implies #[trigger] b.subrange(pos, pos + 8)[j] == enc_u64(
            tv.inputs.len() as u64,
        )[j] by {
            assert(b.skip(pos)[j] == (e + rest)[j]);
            assert(e[j] == enc_u64(tv.inputs.len() as u64)[j]);
        }
    }
    assert(nat_of_sub8(b, pos) == tv.inputs.len());
    assert(b.skip(pos + 8) =~= enc_txin_seq(tv.inputs) + (enc_u64(tv.outputs.len() as u64)
        + enc_txout_seq(tv.outputs) + rest)) by {
        assert forall|j: int| 0 <= j < b.len() - pos - 8 implies #[trigger] b.skip(pos + 8)[j] == (
        enc_txin_seq(tv.inputs) + (enc_u64(tv.outputs.len() as u64) + enc_txout_seq(tv.outputs)
            + rest))[j] by {
            assert(b.skip(pos + 8)[j] == b.skip(pos)[j + 8]);
            assert(b.skip(pos)[j + 8] == (e + rest)[j + 8]);
        }
    }
    assert(b.subrange(pos + 8 + li, pos + 8 + li + 8) =~= enc_u64(tv.outputs.len() as u64)) by {
        assert forall|j: int| 0 <= j < 8 implies #[trigger] b.subrange(pos + 8 + li, pos + 8 + li
            + 8)[j] == enc_u64(tv.outputs.len() as u64)[j] by {
            assert(b.skip(pos)[8 + li + j] == (e + rest)[8 + li + j]);
            assert(e[8 + li + j] == enc_u64(tv.outputs.len() as u64)[j]);
            assert(b.subrange(pos + 8 + li, pos + 8 + li + 8)[j] == b.skip(pos)[8 + li + j]);
        }
    }
    assert(nat_of_sub8(b, pos + 8 + li) == tv.outputs.len());
    assert(b.skip(pos + 8 + li + 8) =~= enc_txout_seq(tv.outputs) + rest) by {
        assert forall|j: int| 0 <= j < b.len() - pos - 16 - li implies #[trigger] b.skip(
            pos + 8 + li + 8,
        )[j] == (enc_txout_seq(tv.outputs) + rest)[j] by {
            assert(b.skip(pos + 8 + li + 8)[j] == b.skip(pos)[8 + li + 8 + j]);
            assert(b.skip(pos)[8 + li + 8 + j] == (e + rest)[8 + li + 8 + j]);
        }
    }
}

/// The value of the eight bytes at a position.
pub open spec fn nat_of_sub8(b: Seq<u8>, pos: int) -> nat {
    crate::numeric::nat_of(b.subrange(pos, pos + 8))
}

/// An input encoding is at least 8 bytes, so a list has at most as many
/// elements as it has bytes.
proof fn lemma_txin_seq_len(s: Seq<TxInV>)
    ensures
        enc_txin_seq(s).len() >= 8 * s.len(),
    decreases s.len(),
{
    if s.len() > 0 {
        lemma_txin_seq_len(s.drop_first());
        assert(enc_txin(s.first()).len() == s.first().prev.len() + 8 + s.first().sig.len());
        assert(enc_txin_seq(s).len() == enc_txin(s.first()).len() + enc_txin_seq(
            s.drop_first(),
        ).len());
    }
}

/// An output encoding is at least 32 bytes, so a list has at most as many
/// elements as it has bytes.
proof fn lemma_txout_seq_len(s: Seq<TxOutV>)
    ensures
        enc_txout_seq(s).len() >= 32 * s.len(),
    decreases s.len(),
{
    if s.len() > 0 {
        lemma_txout_seq_len(s.drop_first());
        assert(enc_txout(s.first()).len() == 8 + 16 + 8 + s.first().pubkey.len());
        assert(enc_txout_seq(s).len() == enc_txout(s.first()).len() + enc_txout_seq(
            s.drop_first(),
        ).len());
    }
}

/// Extending a prefix of an input list by one element extends its bytes.
pub proof fn lemma_enc_txin_seq_snoc(s: Seq<TxInV>, i: int)
    requires
        0 <= i < s.len(),
    ensures
        enc_txin_seq(s.take(i + 1)) == enc_txin_seq(s.take(i)) + enc_txin(s[i]),
    decreases i,
{
    if i == 0 {
        assert(s.take(1).first() == s[0]);
        assert(s.take(1).drop_first() =~= Seq::<TxInV>::empty());
        assert(s.take(0) =~= Seq::<TxInV>::empty());
        assert(enc_txin_seq(Seq::<TxInV>::empty()) == Seq::<u8>::empty());
        assert(enc_txin_seq(s.take(1)) =~= enc_txin(s[0]));
        assert(enc_txin_seq(s.take(0)) + enc_txin(s[0]) =~= enc_txin(s[0]));
    } else {
        lemma_enc_txin_seq_snoc(s.drop_first(), i - 1);
        assert(s.take(i + 1).first() == s[0]);
        assert(s.take(i + 1).drop_first() =~= s.drop_first().take(i));
        assert(s.take(i).first() == s[0]);
        assert(s.take(i).drop_first() =~= s.drop_first().take(i - 1));
        assert(s.drop_first()[i - 1] == s[i]);
        assert(enc_txin(s[0]) + (enc_txin_seq(s.drop_first().take(i - 1)) + enc_txin(s[i])) =~= (
        enc_txin(s[0]) + enc_txin_seq(s.drop_first().take(i - 1))) + enc_txin(s[i]));
    }
}

/// Extending a prefix of an output list by one element extends its bytes.
pub proof fn lemma_enc_txout_seq_snoc(s: Seq<TxOutV>, i: int)
    requires
        0 <= i < s.len(),
    ensures
        enc_txout_seq(s.take(i + 1)) == enc_txout_seq(s.take(i)) + enc_txout(s[i]),
    decreases i,
{
    if i == 0 {
        assert(s.take(1).first() == s[0]);
        assert(s.take(1).drop_first() =~= Seq::<TxOutV>::empty());
        assert(s.take(0) =~= Seq::<TxOutV>::empty());
        assert(enc_txout_seq(Seq::<TxOutV>::empty()) == Seq::<u8>::empty());
        assert(enc_txout_seq(s.take(1)) =~= enc_txout(s[0]));
        assert(enc_txout_seq(s.take(0)) + enc_txout(s[0]) =~= enc_txout(s[0]));
    } else {
        lemma_enc_txout_seq_snoc(s.drop_first(), i - 1);
        assert(s.take(i + 1).first() == s[0]);
        assert(s.take(i + 1).drop_first() =~= s.drop_first().take(i));
        assert(s.take(i).first() == s[0]);
        assert(s.take(i).drop_first() =~= s.drop_first().take(i - 1));
        assert(s.drop_first()[i - 1] == s[i]);
        assert(enc_txout(s[0]) + (enc_txout_seq(s.drop_first().take(i - 1)) + enc_txout(s[i])) =~= (
        enc_txout(s[0]) + enc_txout_seq(s.drop_first().take(i - 1))) + enc_txout(s[i]));
    }
}

} // verus!
