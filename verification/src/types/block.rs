//! Blocks: a header committing to a transaction list by Merkle root,
//! chained by previous-header hash, stamped by proof of work.
use crate::codec::{decode_i64, decode_u64, enc_i64, enc_u64, encode_i64, encode_u64, read_vec};
use crate::hash::sha256_of;
use crate::merkle::MerkleRoot;
use crate::types::transaction::{
    decode_tx, enc_tx, encode_tx, tx_hash, Transaction, TransactionOutput, TxV,
};
use crate::u256::U256;
use vstd::prelude::*;

verus! {

/// Ghost form of a block header.
pub ghost struct HeaderV {
    /// Seconds since the epoch.
    pub timestamp: i64,
    pub nonce: u64,
    /// Hash of the previous block's header, 32 bytes.
    pub prev: Seq<u8>,
    /// Merkle root over the block's transactions, 32 bytes.
    pub merkle_root: Seq<u8>,
    /// Difficulty target, 32 bytes.
    pub target: Seq<u8>,
}

impl HeaderV {
    pub open spec fn wf(self) -> bool {
        self.prev.len() == 32 && self.merkle_root.len() == 32 && self.target.len() == 32
    }
}

/// Ghost form of a block.
pub ghost struct BlockV {
    pub header: HeaderV,
    pub txs: Seq<TxV>,
}

impl BlockV {
    pub open spec fn wf(self) -> bool {
        self.header.wf() && forall|i: int| 0 <= i < self.txs.len() ==> (#[trigger] self.txs[i]).wf()
    }
}

/// The commitment a miner works on: timestamp, nonce, chain link, Merkle
/// root and difficulty target.
pub struct BlockHeader {
    /// Seconds since the epoch.
    pub timestamp: i64,
    /// Nonce swept while mining.
    pub nonce: u64,
    /// Hash of the previous block's header; zero for a genesis block.
    pub prev_block_hash: crate::hash::Hash,
    /// Merkle root over the block's transactions.
    pub merkle_root: MerkleRoot,
    /// Difficulty target this block must hash under.
    pub target: U256,
}

impl View for BlockHeader {
    type V = HeaderV;

    open spec fn view(&self) -> HeaderV {
        HeaderV {
            timestamp: self.timestamp,
            nonce: self.nonce,
            prev: self.prev_block_hash@,
            merkle_root: self.merkle_root@,
            target: self.target@,
        }
    }
}

/// A header and the transactions it commits to; the first transaction is
/// the coinbase.
pub struct Block {
    pub header: BlockHeader,
    pub transactions: Vec<Transaction>,
}

impl View for Block {
    type V = BlockV;

    open spec fn view(&self) -> BlockV {
        BlockV {
            header: self.header@,
            txs: self.transactions@.map_values(|t: Transaction| t@),
        }
    }
}

/// Canonical bytes of a header.
pub open spec fn enc_header(h: HeaderV) -> Seq<u8> {
    enc_i64(h.timestamp) + enc_u64(h.nonce) + h.prev + h.merkle_root + h.target
}

/// The hash of a header: the proof-of-work commitment and the chain link.
pub open spec fn header_hash(h: HeaderV) -> Seq<u8> {
    sha256_of(enc_header(h))
}

/// Canonical bytes of a transaction list, without a count.
pub open spec fn enc_tx_seq(s: Seq<TxV>) -> Seq<u8>
    decreases s.len(),
{
    if s.len() == 0 {
        Seq::empty()
    } else {
        enc_tx(s.first()) + enc_tx_seq(s.drop_first())
    }
}

/// Canonical bytes of a block: header, then a counted transaction list.
pub open spec fn enc_block(b: BlockV) -> Seq<u8> {
    enc_header(b.header) + enc_u64(b.txs.len() as u64) + enc_tx_seq(b.txs)
}

/// The hash of a whole block, including its transactions.
pub open spec fn block_hash(b: BlockV) -> Seq<u8> {
    sha256_of(enc_block(b))
}

/// Appends the canonical bytes of a header.
pub fn encode_header(out: &mut Vec<u8>, h: &BlockHeader)
    ensures
        final(out)@ == old(out)@ + enc_header(h@),
{
    encode_i64(out, h.timestamp);
    encode_u64(out, h.nonce);
    push_all(out, h.prev_block_hash.as_be_bytes());
    push_all(out, h.merkle_root.as_hash().as_be_bytes());
    push_all(out, h.target.as_be_bytes());
    proof {
        assert(out@ =~= old(out)@ + enc_header(h@));
    }
}

/// Appends a byte string as it stands.
pub fn push_all(out: &mut Vec<u8>, s: &Vec<u8>)
    ensures
        final(out)@ == old(out)@ + s@,
{
    let mut i: usize = 0;
    while i < s.len()
        invariant
            i <= s@.len(),
            out@ == old(out)@ + s@.take(i as int),
        decreases s@.len() - i,
    {
        out.push(s[i]);
        proof {
            assert(out@ =~= old(out)@ + s@.take(i + 1));
        }
        i = i + 1;
    }
    proof {
        assert(s@.take(s@.len() as int) =~= s@);
    }
}

/// Appends the canonical bytes of a block.
pub fn encode_block(out: &mut Vec<u8>, b: &Block)
    ensures
        final(out)@ == old(out)@ + enc_block(b@),
{
    encode_header(out, &b.header);
    encode_u64(out, b.transactions.len() as u64);
    let ghost mid = out@;
    let mut i: usize = 0;
    while i < b.transactions.len()
        invariant
            i <= b.transactions@.len(),
            b@.txs == b.transactions@.map_values(|t: Transaction| t@),
            out@ == mid + enc_tx_seq(b@.txs.take(i as int)),
        decreases b.transactions@.len() - i,
    {
        encode_tx(out, &b.transactions[i]);
        proof {
            lemma_enc_tx_seq_snoc(b@.txs, i as int);
        }
        i = i + 1;
    }
    proof {
        assert(b@.txs.take(b@.txs.len() as int) =~= b@.txs);
        assert(out@ =~= old(out)@ + enc_block(b@));
    }
}

/// Extending a prefix of a transaction list by one element extends its
/// bytes.
pub proof fn lemma_enc_tx_seq_snoc(s: Seq<TxV>, i: int)
    requires
        0 <= i < s.len(),
    ensures
        enc_tx_seq(s.take(i + 1)) == enc_tx_seq(s.take(i)) + enc_tx(s[i]),
    decreases i,
{
    if i == 0 {
        assert(s.take(1).first() == s[0]);
        assert(s.take(1).drop_first() =~= Seq::<TxV>::empty());
        assert(s.take(0) =~= Seq::<TxV>::empty());
        assert(enc_tx_seq(Seq::<TxV>::empty()) == Seq::<u8>::empty());
        assert(enc_tx_seq(s.take(1)) =~= enc_tx(s[0]));
        assert(enc_tx_seq(s.take(0)) + enc_tx(s[0]) =~= enc_tx(s[0]));
    } else {
        lemma_enc_tx_seq_snoc(s.drop_first(), i - 1);
        assert(s.take(i + 1).first() == s[0]);
        assert(s.take(i + 1).drop_first() =~= s.drop_first().take(i));
        assert(s.take(i).first() == s[0]);
        assert(s.take(i).drop_first() =~= s.drop_first().take(i - 1));
        assert(s.drop_first()[i - 1] == s[i]);
        assert(enc_tx(s[0]) + (enc_tx_seq(s.drop_first().take(i - 1)) + enc_tx(s[i])) =~= (enc_tx(
            s[0],
        ) + enc_tx_seq(s.drop_first().take(i - 1))) + enc_tx(s[i]));
    }
}

impl BlockHeader {
    pub fn new(
        timestamp: i64,
        nonce: u64,
        prev_block_hash: crate::hash::Hash,
        merkle_root: MerkleRoot,
        target: U256,
    ) -> (r: BlockHeader)
        ensures
            r@ == (HeaderV {
                timestamp,
                nonce,
                prev: prev_block_hash@,
                merkle_root: merkle_root@,
                target: target@,
            }),
    {
        BlockHeader { timestamp, nonce, prev_block_hash, merkle_root, target }
    }

    /// The proof-of-work hash of this header.
    pub fn hash(&self) -> (r: crate::hash::Hash)
        ensures
            r@ == header_hash(self@),
            r.wf(),
    {
        let mut bytes: Vec<u8> = Vec::new();
        encode_header(&mut bytes, self);
        crate::hash::Hash::of_bytes(&bytes)
    }

    /// Sweeps up to `steps` nonces looking for a hash at or under the
    /// target; only the nonce moves, except that a nonce overflow restarts
    /// it at zero and advances the timestamp to `now`. A header already
    /// meeting its target returns true unchanged. True means this header
    /// now matches its target; the chain link, Merkle root and target
    /// never change.
    pub fn mine(&mut self, steps: usize, now: i64) -> (r: bool)
        requires
            old(self)@.wf(),
        ensures
            final(self)@.wf(),
            final(self)@.prev == old(self)@.prev,
            final(self)@.merkle_root == old(self)@.merkle_root,
            final(self)@.target == old(self)@.target,
            r == (crate::numeric::nat_of(header_hash(final(self)@)) <= crate::numeric::nat_of(
                final(self)@.target,
            )),
            crate::numeric::nat_of(header_hash(old(self)@)) <= crate::numeric::nat_of(
                old(self)@.target,
            ) ==> final(self)@ == old(self)@ && r,
            final(self)@.timestamp == old(self)@.timestamp || final(self)@.timestamp == now,
            steps == 0 && crate::numeric::nat_of(header_hash(old(self)@))
                > crate::numeric::nat_of(old(self)@.target) ==> final(self)@ == old(self)@,
    {
        let target = self.target.clone();
        if self.hash().matches_target(&target) {
            return true;
        }
        let mut i: usize = 0;
        while i < steps
            invariant
                self@.wf(),
                self@.prev == old(self)@.prev,
                self@.merkle_root == old(self)@.merkle_root,
                self@.target == old(self)@.target,
                self@.timestamp == old(self)@.timestamp || self@.timestamp == now,
                steps == 0 ==> self@ == old(self)@,
                crate::numeric::nat_of(header_hash(old(self)@)) > crate::numeric::nat_of(
                    old(self)@.target,
                ),
                target@ == old(self)@.target,
            decreases steps - i,
        {
            if self.nonce == u64::MAX {
                self.nonce = 0;
                self.timestamp = now;
            } else {
                self.nonce = self.nonce + 1;
            }
            if self.hash().matches_target(&target) {
                return true;
            }
            i = i + 1;
        }
        let matched = self.hash().matches_target(&target);
        matched
    }
}

impl Clone for BlockHeader {
    fn clone(&self) -> (r: Self)
        ensures
            r@ == self@,
    {
        BlockHeader {
            timestamp: self.timestamp,
            nonce: self.nonce,
            prev_block_hash: self.prev_block_hash.clone(),
            merkle_root: self.merkle_root.clone(),
            target: self.target.clone(),
        }
    }
}

impl Block {
    pub fn new(header: BlockHeader, transactions: Vec<Transaction>) -> (r: Block)
        ensures
            r@.header == header@,
            r@.txs == transactions@.map_values(|t: Transaction| t@),
    {
        Block { header, transactions }
    }

    /// The hash of the whole block.
    pub fn hash(&self) -> (r: crate::hash::Hash)
        ensures
            r@ == block_hash(self@),
            r.wf(),
    {
        let mut bytes: Vec<u8> = Vec::new();
        encode_block(&mut bytes, self);
        crate::hash::Hash::of_bytes(&bytes)
    }
}

impl Clone for Block {
    fn clone(&self) -> (r: Self)
        ensures
            r@ == self@,
    {
        let r = Block {
            header: self.header.clone(),
            transactions: crate::types::transaction::clone_txs(&self.transactions),
        };
        proof {
            assert(r@ == self@);
        }
        r
    }
}

/// Reads back a header.
pub fn decode_header(buf: &Vec<u8>, pos: usize) -> (r: Option<(BlockHeader, usize)>)
    requires
        pos <= buf@.len(),
    ensures
        r matches Some((h, p)) ==> pos < p <= buf@.len() && h@.wf(),
        forall|hv: HeaderV, rest: Seq<u8>|
            hv.wf() && buf@.skip(pos as int) == #[trigger] (enc_header(hv) + rest) ==> (r matches Some(
                (h, p),
            ) && h@ == hv && p == pos + enc_header(hv).len()),
{
    let ts = match decode_i64(buf, pos) {
        Some(x) => x,
        None => {
            proof {
                assert forall|hv: HeaderV, rest: Seq<u8>|
                    hv.wf() && buf@.skip(pos as int) == #[trigger] (enc_header(hv)
                        + rest) implies false by {
                    lemma_header_parts(buf@, pos as int, hv, rest);
                }
            }
            return None;
        },
    };
    let (timestamp, p1) = ts;
    let nn = match decode_u64(buf, p1) {
        Some(x) => x,
        None => {
            proof {
                assert forall|hv: HeaderV, rest: Seq<u8>|
                    hv.wf() && buf@.skip(pos as int) == #[trigger] (enc_header(hv)
                        + rest) implies false by {
                    lemma_header_parts(buf@, pos as int, hv, rest);
                }
            }
            return None;
        },
    };
    let (nonce, p2) = nn;
    if buf.len() - p2 < 96 {
        proof {
            assert forall|hv: HeaderV, rest: Seq<u8>|
                hv.wf() && buf@.skip(pos as int) == #[trigger] (enc_header(hv) + rest) implies false by {
                lemma_header_parts(buf@, pos as int, hv, rest);
            }
        }
        return None;
    }
    let prev = read_vec(buf, p2, 32);
    let merkle = read_vec(buf, p2 + 32, 32);
    let target = read_vec(buf, p2 + 64, 32);
    let h = BlockHeader {
        timestamp,
        nonce,
        prev_block_hash: crate::hash::Hash::from_be_bytes(prev),
        merkle_root: MerkleRoot::from_hash(crate::hash::Hash::from_be_bytes(merkle)),
        target: U256::from_be_bytes(target),
    };
    proof {
        assert forall|hv: HeaderV, rest: Seq<u8>|
            hv.wf() && buf@.skip(pos as int) == #[trigger] (enc_header(hv) + rest) implies h@ == hv
            && p2 + 96 == pos + enc_header(hv).len() by {
            lemma_header_parts(buf@, pos as int, hv, rest);
            crate::numeric::lemma_pow256_units();
            crate::numeric::lemma_bytes_of_exact(hv.nonce as nat, 8);
            assert(h@.prev =~= hv.prev);
            assert(h@.merkle_root =~= hv.merkle_root);
            assert(h@.target =~= hv.target);
        }
    }
    Some((h, p2 + 96))
}

/// What a header encoding at a position forces about the buffer.
proof fn lemma_header_parts(b: Seq<u8>, pos: int, hv: HeaderV, rest: Seq<u8>)
    requires
        0 <= pos <= b.len(),
        hv.wf(),
        b.skip(pos) == enc_header(hv) + rest,
    ensures
        b.len() >= pos + enc_header(hv).len(),
        enc_header(hv).len() == 113,
        b.skip(pos) == enc_i64(hv.timestamp) + (enc_u64(hv.nonce) + (hv.prev + (hv.merkle_root + (
        hv.target + rest)))),
        b.subrange(pos + 9, pos + 17) == enc_u64(hv.nonce),
        b.subrange(pos + 17, pos + 49) == hv.prev,
        b.subrange(pos + 49, pos + 81) == hv.merkle_root,
        b.subrange(pos + 81, pos + 113) == hv.target,
{
    assert(b.skip(pos).len() == b.len() - pos);
    assert(enc_i64(hv.timestamp).len() == 9);
    assert(enc_header(hv).len() == 113);
    assert(b.skip(pos) =~= enc_i64(hv.timestamp) + (enc_u64(hv.nonce) + (hv.prev + (hv.merkle_root
        + (hv.target + rest)))));
    assert forall|j: int| 0 <= j < 8 implies #[trigger] b.subrange(pos + 9, pos + 17)[j] == enc_u64(
        hv.nonce,
    )[j] by {
        assert(b.skip(pos)[9 + j] == (enc_header(hv) + rest)[9 + j]);
        assert(enc_header(hv)[9 + j] == enc_u64(hv.nonce)[j]);
        assert(b.subrange(pos + 9, pos + 17)[j] == b.skip(pos)[9 + j]);
    }
    assert(b.subrange(pos + 9, pos + 17) =~= enc_u64(hv.nonce));
    assert forall|j: int| 0 <= j < 32 implies #[trigger] b.subrange(pos + 17, pos + 49)[j]
        == hv.prev[j] by {
        assert(b.skip(pos)[17 + j] == (enc_header(hv) + rest)[17 + j]);
        assert(enc_header(hv)[17 + j] == hv.prev[j]);
        assert(b.subrange(pos + 17, pos + 49)[j] == b.skip(pos)[17 + j]);
    }
    assert(b.subrange(pos + 17, pos + 49) =~= hv.prev);
    assert forall|j: int| 0 <= j < 32 implies #[trigger] b.subrange(pos + 49, pos + 81)[j]
        == hv.merkle_root[j] by {
        assert(b.skip(pos)[49 + j] == (enc_header(hv) + rest)[49 + j]);
        assert(enc_header(hv)[49 + j] == hv.merkle_root[j]);
        assert(b.subrange(pos + 49, pos + 81)[j] == b.skip(pos)[49 + j]);
    }
    assert(b.subrange(pos + 49, pos + 81) =~= hv.merkle_root);
    assert forall|j: int| 0 <= j < 32 implies #[trigger] b.subrange(pos + 81, pos + 113)[j]
        == hv.target[j] by {
        assert(b.skip(pos)[81 + j] == (enc_header(hv) + rest)[81 + j]);
        assert(enc_header(hv)[81 + j] == hv.target[j]);
        assert(b.subrange(pos + 81, pos + 113)[j] == b.skip(pos)[81 + j]);
    }
    assert(b.subrange(pos + 81, pos + 113) =~= hv.target);
}

/// Whether every block in a list is well formed.
pub open spec fn wf_tx_seq_blocks(s: Seq<BlockV>) -> bool {
    forall|i: int| 0 <= i < s.len() ==> (#[trigger] s[i]).wf()
}

/// Whether every transaction in a list is well formed.
pub open spec fn wf_tx_seq(s: Seq<TxV>) -> bool {
    forall|i: int| 0 <= i < s.len() ==> (#[trigger] s[i]).wf()
}

/// Reads back `n` transactions.
pub fn decode_tx_list(buf: &Vec<u8>, pos: usize, n: u64) -> (r: Option<(Vec<Transaction>, usize)>)
    requires
        pos <= buf@.len(),
    ensures
        r matches Some((v, p)) ==> pos <= p <= buf@.len() && v@.len() == n && wf_tx_seq(
            v@.map_values(|x: Transaction| x@),
        ),
        forall|s: Seq<TxV>, rest: Seq<u8>|
            s.len() == n && wf_tx_seq(s) && buf@.skip(pos as int) == #[trigger] (enc_tx_seq(s)
                + rest) ==> (r matches Some((v, p)) && v@.map_values(|x: Transaction| x@) == s && p
                == pos + enc_tx_seq(s).len()),
    decreases n,
{
    if n == 0 {
        let v: Vec<Transaction> = Vec::new();
        proof {
            assert(v@.map_values(|x: Transaction| x@) =~= Seq::<TxV>::empty());
            assert forall|s: Seq<TxV>, rest: Seq<u8>|
                s.len() == 0 && buf@.skip(pos as int) == #[trigger] (enc_tx_seq(s)
                    + rest) implies v@.map_values(|x: Transaction| x@) == s && enc_tx_seq(s).len()
                == 0 by {
                assert(s =~= Seq::<TxV>::empty());
            }
        }
        return Some((v, pos));
    }
    match decode_tx(buf, pos) {
        None => {
            proof {
                assert forall|s: Seq<TxV>, rest: Seq<u8>|
                    s.len() == n && wf_tx_seq(s) && buf@.skip(pos as int) == #[trigger] (enc_tx_seq(
                        s,
                    ) + rest) implies false by {
                    lemma_tx_seq_head(buf@, pos as int, s, rest);
                }
            }
            None
        },
        Some((e, p1)) => {
            match decode_tx_list(buf, p1, n - 1) {
                None => {
                    proof {
                        assert forall|s: Seq<TxV>, rest: Seq<u8>|
                            s.len() == n && wf_tx_seq(s) && buf@.skip(pos as int) == #[trigger] (
                        enc_tx_seq(s) + rest) implies false by {
                            lemma_tx_seq_head(buf@, pos as int, s, rest);
                            crate::codec::lemma_skip_prefix(buf@, pos as int, enc_tx(s.first()),
                                enc_tx_seq(s.drop_first()) + rest);
                            assert(s.drop_first().len() == n - 1);
                            assert(wf_tx_seq(s.drop_first()));
                        }
                    }
                    None
                },
                Some((mut v, p2)) => {
                    let ghost tail_views = v@.map_values(|x: Transaction| x@);
                    v.insert(0, e);
                    proof {
                        assert(v@.map_values(|x: Transaction| x@) =~= tail_views.insert(0, e@));
                        assert forall|s: Seq<TxV>, rest: Seq<u8>|
                            s.len() == n && wf_tx_seq(s) && buf@.skip(pos as int) == #[trigger] (
                        enc_tx_seq(s) + rest) implies v@.map_values(|x: Transaction| x@) == s && p2
                            == pos + enc_tx_seq(s).len() by {
                            lemma_tx_seq_head(buf@, pos as int, s, rest);
                            crate::codec::lemma_skip_prefix(buf@, pos as int, enc_tx(s.first()),
                                enc_tx_seq(s.drop_first()) + rest);
                            assert(s.drop_first().len() == n - 1);
                            assert(wf_tx_seq(s.drop_first()));
                            assert(tail_views == s.drop_first());
                            assert(v@.map_values(|x: Transaction| x@) =~= s);
                        }
                        assert(wf_tx_seq(v@.map_values(|x: Transaction| x@))) by {
                            let m = v@.map_values(|x: Transaction| x@);
                            assert forall|i: int| 0 <= i < m.len() implies (#[trigger] m[i]).wf()
                            by {
                                if i > 0 {
                                    assert(tail_views[i - 1].wf());
                                    assert(m[i] == tail_views[i - 1]);
                                } else {
                                    assert(m[0] == e@);
                                }
                            }
                        }
                    }
                    Some((v, p2))
                },
            }
        },
    }
}

/// Splitting the encoding of a non-empty transaction list at its first
/// element.
proof fn lemma_tx_seq_head(b: Seq<u8>, pos: int, s: Seq<TxV>, rest: Seq<u8>)
    requires
        0 <= pos <= b.len(),
        s.len() > 0,
        wf_tx_seq(s),
        b.skip(pos) == enc_tx_seq(s) + rest,
    ensures
        s.first().wf(),
        b.skip(pos) == enc_tx(s.first()) + (enc_tx_seq(s.drop_first()) + rest),
        enc_tx_seq(s).len() == enc_tx(s.first()).len() + enc_tx_seq(s.drop_first()).len(),
{
    assert(s[0].wf());
    assert(enc_tx_seq(s) == enc_tx(s.first()) + enc_tx_seq(s.drop_first()));
    assert((enc_tx(s.first()) + enc_tx_seq(s.drop_first())) + rest =~= enc_tx(s.first()) + (
    enc_tx_seq(s.drop_first()) + rest));
}

/// Reads back a block.
pub fn decode_block(buf: &Vec<u8>, pos: usize) -> (r: Option<(Block, usize)>)
    requires
        pos <= buf@.len(),
    ensures
        r matches Some((b, p)) ==> pos < p <= buf@.len() && b@.wf(),
        forall|bv: BlockV, rest: Seq<u8>|
            bv.wf() && buf@.skip(pos as int) == #[trigger] (enc_block(bv) + rest) ==> (r matches Some(
                (b, p),
            ) && b@ == bv && p == pos + enc_block(bv).len()),
{
    proof {
        crate::codec::lemma_buf_len_bound(buf);
        crate::numeric::lemma_pow256_units();
    }
    let hd = match decode_header(buf, pos) {
        Some(x) => x,
        None => {
            proof {
                assert forall|bv: BlockV, rest: Seq<u8>|
                    bv.wf() && buf@.skip(pos as int) == #[trigger] (enc_block(bv)
                        + rest) implies false by {
                    lemma_block_parts(buf@, pos as int, bv, rest);
                }
            }
            return None;
        },
    };
    let (header, p1) = hd;
    let cnt = match decode_u64(buf, p1) {
        Some(x) => x,
        None => {
            proof {
                assert forall|bv: BlockV, rest: Seq<u8>|
                    bv.wf() && buf@.skip(pos as int) == #[trigger] (enc_block(bv)
                        + rest) implies false by {
                    lemma_block_parts(buf@, pos as int, bv, rest);
                    crate::numeric::lemma_bytes_of_exact(bv.txs.len(), 8);
                }
            }
            return None;
        },
    };
    let (n, p2) = cnt;
    match decode_tx_list(buf, p2, n) {
        None => {
            proof {
                assert forall|bv: BlockV, rest: Seq<u8>|
                    bv.wf() && buf@.skip(pos as int) == #[trigger] (enc_block(bv)
                        + rest) implies false by {
                    lemma_block_parts(buf@, pos as int, bv, rest);
                    crate::numeric::lemma_bytes_of_exact(bv.txs.len(), 8);
                }
            }
            None
        },
        Some((txs, p3)) => {
            let b = Block { header, transactions: txs };
            proof {
                assert forall|bv: BlockV, rest: Seq<u8>|
                    bv.wf() && buf@.skip(pos as int) == #[trigger] (enc_block(bv) + rest) implies b@
                    == bv && p3 == pos + enc_block(bv).len() by {
                    lemma_block_parts(buf@, pos as int, bv, rest);
                    crate::numeric::lemma_bytes_of_exact(bv.txs.len(), 8);
                }
            }
            Some((b, p3))
        },
    }
}

/// Splitting the encoding of a block at its three parts.
proof fn lemma_block_parts(b: Seq<u8>, pos: int, bv: BlockV, rest: Seq<u8>)
    requires
        0 <= pos <= b.len(),
        b.len() < crate::numeric::pow256(8),
        bv.wf(),
        b.skip(pos) == enc_block(bv) + rest,
    ensures
        b.len() >= pos + enc_block(bv).len(),
        bv.txs.len() < crate::numeric::pow256(8),
        wf_tx_seq(bv.txs),
        b.skip(pos) == enc_header(bv.header) + (enc_u64(bv.txs.len() as u64) + (enc_tx_seq(bv.txs)
            + rest)),
        crate::numeric::nat_of(
            b.subrange(pos + enc_header(bv.header).len(), pos + enc_header(bv.header).len() + 8),
        ) == bv.txs.len(),
        b.skip(pos + enc_header(bv.header).len() + 8) == enc_tx_seq(bv.txs) + rest,
        enc_block(bv).len() == enc_header(bv.header).len() + 8 + enc_tx_seq(bv.txs).len(),
{
    let hl = enc_header(bv.header).len() as int;
    assert(b.skip(pos).len() == b.len() - pos);
    assert(enc_block(bv).len() == hl + 8 + enc_tx_seq(bv.txs).len());
    assert(b.skip(pos) =~= enc_header(bv.header) + (enc_u64(bv.txs.len() as u64) + (enc_tx_seq(
        bv.txs,
    ) + rest)));
    assert(bv.txs.len() <= b.len()) by {
        lemma_tx_seq_len(bv.txs);
    }
    crate::numeric::lemma_pow256_units();
    crate::numeric::lemma_bytes_of_exact(bv.txs.len(), 8);
    assert(b.subrange(pos + hl, pos + hl + 8) =~= enc_u64(bv.txs.len() as u64)) by {
        assert forall|j: int| 0 <= j < 8 implies #[trigger] b.subrange(pos + hl, pos + hl + 8)[j]
            == enc_u64(bv.txs.len() as u64)[j] by {
            assert(b.subrange(pos + hl, pos + hl + 8)[j] == b.skip(pos)[hl + j]);
            assert(b.skip(pos)[hl + j] == (enc_block(bv) + rest)[hl + j]);
            assert(enc_block(bv)[hl + j] == enc_u64(bv.txs.len() as u64)[j]);
        }
    }
    assert(b.skip(pos + hl + 8) =~= enc_tx_seq(bv.txs) + rest) by {
        assert forall|j: int| 0 <= j < b.len() - pos - hl - 8 implies #[trigger] b.skip(
            pos + hl + 8,
        )[j] == (enc_tx_seq(bv.txs) + rest)[j] by {
            assert(b.skip(pos + hl + 8)[j] == b.skip(pos)[hl + 8 + j]);
            assert(b.skip(pos)[hl + 8 + j] == (enc_block(bv) + rest)[hl + 8 + j]);
        }
    }
}

/// All inputs of a transaction list, in order.
pub open spec fn inputs_of(txs: Seq<TxV>) -> Seq<crate::types::transaction::TxInV>
    decreases txs.len(),
{
    if txs.len() == 0 {
        Seq::empty()
    } else {
        txs.first().inputs + inputs_of(txs.drop_first())
    }
}

/// All outputs of a transaction list, in order.
pub open spec fn outputs_of(txs: Seq<TxV>) -> Seq<crate::types::transaction::TxOutV>
    decreases txs.len(),
{
    if txs.len() == 0 {
        Seq::empty()
    } else {
        txs.first().outputs + outputs_of(txs.drop_first())
    }
}

/// The total value the listed inputs consume, valued by the UTXO set.
pub open spec fn in_values_sum(
    ins: Seq<crate::types::transaction::TxInV>,
    u: Seq<crate::types::utxo::UtxoEntryV>,
) -> int
    decreases ins.len(),
{
    if ins.len() == 0 {
        0
    } else {
        crate::types::utxo::entry_of(u, ins.first().prev).output.value + in_values_sum(
            ins.drop_first(),
            u,
        )
    }
}

/// The total value the listed outputs create.
pub open spec fn out_values_sum(outs: Seq<crate::types::transaction::TxOutV>) -> int
    decreases outs.len(),
{
    if outs.len() == 0 {
        0
    } else {
        outs.first().value + out_values_sum(outs.drop_first())
    }
}

/// No two inputs consume the same output.
pub open spec fn distinct_prevs(ins: Seq<crate::types::transaction::TxInV>) -> bool {
    forall|i: int, j: int|
        0 <= i < j < ins.len() ==> (#[trigger] ins[i]).prev != (#[trigger] ins[j]).prev
}

/// No two outputs hash alike.
pub open spec fn distinct_out_hashes(outs: Seq<crate::types::transaction::TxOutV>) -> bool {
    forall|i: int, j: int|
        0 <= i < j < outs.len() ==> crate::types::transaction::out_hash(#[trigger] outs[i])
            != crate::types::transaction::out_hash(#[trigger] outs[j])
}

/// Every listed input consumes an output present in the UTXO set.
pub open spec fn all_present(
    ins: Seq<crate::types::transaction::TxInV>,
    u: Seq<crate::types::utxo::UtxoEntryV>,
) -> bool {
    forall|i: int|
        0 <= i < ins.len() ==> crate::types::utxo::has_key(u, (#[trigger] ins[i]).prev)
}

/// The transactions after the coinbase; empty when there are none.
pub open spec fn non_coinbase(txs: Seq<TxV>) -> Seq<TxV> {
    if txs.len() == 0 {
        Seq::empty()
    } else {
        txs.drop_first()
    }
}

/// When the miner fee of a block is defined: every non-coinbase input
/// consumes a distinct present output, non-coinbase output hashes are
/// distinct, the consumed value fits a 64-bit count and covers the created
/// value.
pub open spec fn fees_ok(b: BlockV, u: Seq<crate::types::utxo::UtxoEntryV>) -> bool {
    let ins = inputs_of(non_coinbase(b.txs));
    let outs = outputs_of(non_coinbase(b.txs));
    all_present(ins, u) && distinct_prevs(ins) && distinct_out_hashes(outs) && in_values_sum(ins, u)
        <= u64::MAX && out_values_sum(outs) <= in_values_sum(ins, u)
}

/// The miner fee of a block: consumed minus created value over the
/// non-coinbase transactions.
pub open spec fn miner_fee(b: BlockV, u: Seq<crate::types::utxo::UtxoEntryV>) -> int {
    in_values_sum(inputs_of(non_coinbase(b.txs)), u) - out_values_sum(
        outputs_of(non_coinbase(b.txs)),
    )
}

/// Splitting a flattened input list at a transaction boundary.
pub proof fn lemma_inputs_of_split(txs: Seq<TxV>, t: int)
    requires
        0 <= t <= txs.len(),
    ensures
        inputs_of(txs) == inputs_of(txs.take(t)) + inputs_of(txs.skip(t)),
    decreases t,
{
    if t == 0 {
        assert(txs.take(0) =~= Seq::<TxV>::empty());
        assert(txs.skip(0) =~= txs);
        assert(inputs_of(Seq::<TxV>::empty()) == Seq::<crate::types::transaction::TxInV>::empty());
        assert(inputs_of(txs) =~= inputs_of(txs.take(0)) + inputs_of(txs.skip(0)));
    } else {
        lemma_inputs_of_split(txs.drop_first(), t - 1);
        assert(txs.take(t).first() == txs[0]);
        assert(txs.take(t).drop_first() =~= txs.drop_first().take(t - 1));
        assert(txs.skip(t) =~= txs.drop_first().skip(t - 1));
        assert(txs.first().inputs + (inputs_of(txs.drop_first().take(t - 1)) + inputs_of(
            txs.drop_first().skip(t - 1),
        )) =~= (txs.first().inputs + inputs_of(txs.drop_first().take(t - 1))) + inputs_of(
            txs.drop_first().skip(t - 1),
        ));
    }
}

/// Splitting a flattened output list at a transaction boundary.
pub proof fn lemma_outputs_of_split(txs: Seq<TxV>, t: int)
    requires
        0 <= t <= txs.len(),
    ensures
        outputs_of(txs) == outputs_of(txs.take(t)) + outputs_of(txs.skip(t)),
    decreases t,
{
    if t == 0 {
        assert(txs.take(0) =~= Seq::<TxV>::empty());
        assert(txs.skip(0) =~= txs);
        assert(outputs_of(Seq::<TxV>::empty())
            == Seq::<crate::types::transaction::TxOutV>::empty());
        assert(outputs_of(txs) =~= outputs_of(txs.take(0)) + outputs_of(txs.skip(0)));
    } else {
        lemma_outputs_of_split(txs.drop_first(), t - 1);
        assert(txs.take(t).first() == txs[0]);
        assert(txs.take(t).drop_first() =~= txs.drop_first().take(t - 1));
        assert(txs.skip(t) =~= txs.drop_first().skip(t - 1));
        assert(txs.first().outputs + (outputs_of(txs.drop_first().take(t - 1)) + outputs_of(
            txs.drop_first().skip(t - 1),
        )) =~= (txs.first().outputs + outputs_of(txs.drop_first().take(t - 1))) + outputs_of(
            txs.drop_first().skip(t - 1),
        ));
    }
}

/// Input sums add over concatenation.
pub proof fn lemma_in_sum_concat(
    a: Seq<crate::types::transaction::TxInV>,
    b: Seq<crate::types::transaction::TxInV>,
    u: Seq<crate::types::utxo::UtxoEntryV>,
)
    ensures
        in_values_sum(a + b, u) == in_values_sum(a, u) + in_values_sum(b, u),
    decreases a.len(),
{
    if a.len() == 0 {
        assert(a + b =~= b);
    } else {
        lemma_in_sum_concat(a.drop_first(), b, u);
        assert((a + b).first() == a.first());
        assert((a + b).drop_first() =~= a.drop_first() + b);
    }
}

/// Output sums add over concatenation.
pub proof fn lemma_out_sum_concat(
    a: Seq<crate::types::transaction::TxOutV>,
    b: Seq<crate::types::transaction::TxOutV>,
)
    ensures
        out_values_sum(a + b) == out_values_sum(a) + out_values_sum(b),
    decreases a.len(),
{
    if a.len() == 0 {
        assert(a + b =~= b);
    } else {
        lemma_out_sum_concat(a.drop_first(), b);
        assert((a + b).first() == a.first());
        assert((a + b).drop_first() =~= a.drop_first() + b);
    }
}

/// Input sums are never negative.
pub proof fn lemma_in_sum_nonneg(
    a: Seq<crate::types::transaction::TxInV>,
    u: Seq<crate::types::utxo::UtxoEntryV>,
)
    ensures
        in_values_sum(a, u) >= 0,
    decreases a.len(),
{
    if a.len() > 0 {
        lemma_in_sum_nonneg(a.drop_first(), u);
    }
}

/// Output sums are never negative.
pub proof fn lemma_out_sum_nonneg(a: Seq<crate::types::transaction::TxOutV>)
    ensures
        out_values_sum(a) >= 0,
    decreases a.len(),
{
    if a.len() > 0 {
        lemma_out_sum_nonneg(a.drop_first());
    }
}

/// Appending one input to a sum.
pub proof fn lemma_in_sum_snoc(
    a: Seq<crate::types::transaction::TxInV>,
    e: crate::types::transaction::TxInV,
    u: Seq<crate::types::utxo::UtxoEntryV>,
)
    ensures
        in_values_sum(a.push(e), u) == in_values_sum(a, u) + crate::types::utxo::entry_of(
            u,
            e.prev,
        ).output.value,
{
    assert(a.push(e) =~= a + seq![e]);
    lemma_in_sum_concat(a, seq![e], u);
    let single = seq![e];
    assert(single.drop_first() =~= Seq::<crate::types::transaction::TxInV>::empty());
    assert(in_values_sum(single.drop_first(), u) == 0);
    assert(single.first() == e);
    assert(in_values_sum(single, u) == crate::types::utxo::entry_of(u, e.prev).output.value + 0);
}

/// Appending one output to a sum.
pub proof fn lemma_out_sum_snoc(
    a: Seq<crate::types::transaction::TxOutV>,
    e: crate::types::transaction::TxOutV,
)
    ensures
        out_values_sum(a.push(e)) == out_values_sum(a) + e.value,
{
    assert(a.push(e) =~= a + seq![e]);
    lemma_out_sum_concat(a, seq![e]);
    let single = seq![e];
    assert(single.drop_first() =~= Seq::<crate::types::transaction::TxOutV>::empty());
    assert(out_values_sum(single.drop_first()) == 0);
    assert(single.first() == e);
    assert(out_values_sum(single) == e.value + 0);
}

/// One transaction's inputs and outputs as a window of the flattened
/// lists.
pub proof fn lemma_flat_window(txs: Seq<TxV>, t: int, j: int)
    requires
        0 <= t < txs.len(),
        0 <= j <= txs[t].inputs.len(),
    ensures
        inputs_of(txs) == (inputs_of(txs.take(t)) + txs[t].inputs.take(j)) + (txs[t].inputs.skip(j)
            + inputs_of(txs.skip(t + 1))),
{
    lemma_inputs_of_split(txs, t);
    assert(txs.skip(t).first() == txs[t]);
    assert(txs.skip(t).drop_first() =~= txs.skip(t + 1));
    assert(inputs_of(txs.skip(t)) == txs[t].inputs + inputs_of(txs.skip(t + 1)));
    assert(txs[t].inputs =~= txs[t].inputs.take(j) + txs[t].inputs.skip(j));
    assert(inputs_of(txs.take(t)) + ((txs[t].inputs.take(j) + txs[t].inputs.skip(j)) + inputs_of(
        txs.skip(t + 1),
    )) =~= (inputs_of(txs.take(t)) + txs[t].inputs.take(j)) + (txs[t].inputs.skip(j) + inputs_of(
        txs.skip(t + 1),
    )));
}

/// The same window over outputs.
pub proof fn lemma_flat_window_out(txs: Seq<TxV>, t: int, j: int)
    requires
        0 <= t < txs.len(),
        0 <= j <= txs[t].outputs.len(),
    ensures
        outputs_of(txs) == (outputs_of(txs.take(t)) + txs[t].outputs.take(j)) + (
        txs[t].outputs.skip(j) + outputs_of(txs.skip(t + 1))),
{
    lemma_outputs_of_split(txs, t);
    assert(txs.skip(t).first() == txs[t]);
    assert(txs.skip(t).drop_first() =~= txs.skip(t + 1));
    assert(outputs_of(txs.skip(t)) == txs[t].outputs + outputs_of(txs.skip(t + 1)));
    assert(txs[t].outputs =~= txs[t].outputs.take(j) + txs[t].outputs.skip(j));
    assert(outputs_of(txs.take(t)) + ((txs[t].outputs.take(j) + txs[t].outputs.skip(j))
        + outputs_of(txs.skip(t + 1))) =~= (outputs_of(txs.take(t)) + txs[t].outputs.take(j)) + (
    txs[t].outputs.skip(j) + outputs_of(txs.skip(t + 1))));
}

/// Whether a hash value occurs in a list.
pub fn contains_hash(v: &Vec<crate::hash::Hash>, h: &crate::hash::Hash) -> (r: bool)
    ensures
        r == exists|i: int| 0 <= i < v@.len() && (#[trigger] v@[i])@ == h@,
{
    let mut i: usize = 0;
    while i < v.len()
        invariant
            i <= v@.len(),
            forall|j: int| 0 <= j < i ==> (#[trigger] v@[j])@ != h@,
        decreases v@.len() - i,
    {
        if v[i].equals(h) {
            return true;
        }
        i = i + 1;
    }
    false
}

impl Block {
    /// The miner fee this block collects: consumed minus created value over
    /// its non-coinbase transactions, valued by the given UTXO set.
    /// Rejects a missing input, a repeated input, a repeated output hash,
    /// a consumed total over the 64-bit range and a created total that
    /// exceeds the consumed total.
    pub fn calculate_miner_fees(&self, utxos: &crate::types::utxo::UtxoSet) -> (r: Result<
        u64,
        crate::error::BtcError,
    >)
        ensures
            match r {
                Ok(fee) => fees_ok(self@, utxos@) && fee == miner_fee(self@, utxos@),
                Err(e) => e == crate::error::BtcError::InvalidTransaction && !fees_ok(
                    self@,
                    utxos@,
                ),
            },
    {
        let ghost all = self@.txs;
        let ghost nn = non_coinbase(all);
        let ghost u = utxos@;
        let n = self.transactions.len();
        let mut seen_in: Vec<crate::hash::Hash> = Vec::new();
        let mut seen_out: Vec<crate::hash::Hash> = Vec::new();
        let ghost mut flat_in = Seq::<crate::types::transaction::TxInV>::empty();
        let ghost mut flat_out = Seq::<crate::types::transaction::TxOutV>::empty();
        let mut in_acc: u128 = 0;
        let mut out_acc: u128 = 0;
        let mut t: usize = 1;
        proof {
            assert(inputs_of(nn.take(0)) =~= Seq::<crate::types::transaction::TxInV>::empty());
            assert(outputs_of(nn.take(0)) =~= Seq::<crate::types::transaction::TxOutV>::empty());
            if n == 0 {
                assert(nn == Seq::<TxV>::empty());
                assert(nn.take(0) =~= nn);
            }
        }
        while t < n
            invariant
                1 <= t <= n || (n == 0 && t == 1),
                n == self.transactions@.len(),
                all == self@.txs,
                nn == non_coinbase(all),
                u == utxos@,
                flat_in == inputs_of(nn.take(t - 1)),
                flat_out == outputs_of(nn.take(t - 1)),
                all_present(flat_in, u),
                distinct_prevs(flat_in),
                distinct_out_hashes(flat_out),
                in_acc == in_values_sum(flat_in, u),
                out_acc == out_values_sum(flat_out),
                in_acc <= u64::MAX,
                out_acc <= u64::MAX,
                seen_in@.len() == flat_in.len(),
                forall|i: int|
                    0 <= i < flat_in.len() ==> (#[trigger] seen_in@[i])@ == flat_in[i].prev,
                seen_out@.len() == flat_out.len(),
                forall|i: int|
                    0 <= i < flat_out.len() ==> (#[trigger] seen_out@[i])@
                        == crate::types::transaction::out_hash(flat_out[i]),
            decreases n - t,
        {
            let ghost ti = t - 1;
            proof {
                assert(nn[ti as int] == all[t as int]);
            }
            let tx = &self.transactions[t];
            let mut j: usize = 0;
            proof {
                assert(flat_in =~= inputs_of(nn.take(ti as int)) + nn[ti as int].inputs.take(0));
            }
            while j < tx.inputs.len()
                invariant
                    1 <= t < n,
                    n == self.transactions@.len(),
                    all == self@.txs,
                    nn == non_coinbase(all),
                    u == utxos@,
                    ti == t - 1,
                    tx@ == nn[ti as int],
                    tx@ == self.transactions@[t as int]@,
                    j <= tx.inputs@.len(),
                    tx@.inputs == tx.inputs@.map_values(
                        |x: crate::types::transaction::TransactionInput| x@,
                    ),
                    flat_in == inputs_of(nn.take(ti as int)) + nn[ti as int].inputs.take(j as int),
                    flat_out == outputs_of(nn.take(ti as int)),
                    all_present(flat_in, u),
                    distinct_prevs(flat_in),
                    distinct_out_hashes(flat_out),
                    in_acc == in_values_sum(flat_in, u),
                    out_acc == out_values_sum(flat_out),
                    in_acc <= u64::MAX,
                    out_acc <= u64::MAX,
                    seen_in@.len() == flat_in.len(),
                    forall|i: int|
                        0 <= i < flat_in.len() ==> (#[trigger] seen_in@[i])@ == flat_in[i].prev,
                    seen_out@.len() == flat_out.len(),
                    forall|i: int|
                        0 <= i < flat_out.len() ==> (#[trigger] seen_out@[i])@
                            == crate::types::transaction::out_hash(flat_out[i]),
                decreases tx.inputs@.len() - j,
            {
                let input = &tx.inputs[j];
                proof {
                    lemma_flat_window(nn, ti as int, j as int);
                    assert(nn[ti as int].inputs.skip(j as int).first() == input@);
                    assert(inputs_of(nn)[flat_in.len() as int] == input@) by {
                        assert(inputs_of(nn) == flat_in + (nn[ti as int].inputs.skip(j as int)
                            + inputs_of(nn.skip(ti + 1))));
                    }
                }
                let entry = match utxos.get(&input.prev_transaction_output_hash) {
                    Some(e) => e,
                    None => {
                        proof {
                            assert(!all_present(inputs_of(nn), u));
                        }
                        return Err(crate::error::BtcError::InvalidTransaction);
                    },
                };
                if contains_hash(&seen_in, &input.prev_transaction_output_hash) {
                    proof {
                        let i = choose|i: int|
                            0 <= i < seen_in@.len() && (#[trigger] seen_in@[i])@
                                == input.prev_transaction_output_hash@;
                        assert(inputs_of(nn)[i].prev == inputs_of(nn)[flat_in.len() as int].prev);
                        assert(!distinct_prevs(inputs_of(nn)));
                    }
                    return Err(crate::error::BtcError::InvalidTransaction);
                }
                let value = entry.output.value;
                seen_in.push(input.prev_transaction_output_hash.clone());
                proof {
                    lemma_in_sum_snoc(flat_in, input@, u);
                    let pre = flat_in;
                    flat_in = flat_in.push(input@);
                    assert(distinct_prevs(flat_in)) by {
                        assert forall|a: int, b: int| 0 <= a < b < flat_in.len() implies (
                        #[trigger] flat_in[a]).prev != (#[trigger] flat_in[b]).prev by {
                            if b == flat_in.len() - 1 {
                                assert(flat_in[a] == pre[a]);
                                assert(seen_in@[a]@ == pre[a].prev);
                            } else {
                                assert(flat_in[a] == pre[a]);
                                assert(flat_in[b] == pre[b]);
                            }
                        }
                    }
                    assert(all_present(flat_in, u)) by {
                        assert forall|a: int| 0 <= a < flat_in.len() implies crate::types::utxo::has_key(
                            u,
                            (#[trigger] flat_in[a]).prev,
                        ) by {
                            if a < flat_in.len() - 1 {
                                assert(flat_in[a] == pre[a]);
                            }
                        }
                    }
                    assert(flat_in =~= inputs_of(nn.take(ti as int)) + nn[ti as int].inputs.take(
                        j + 1,
                    ));
                }
                in_acc = in_acc + (value as u128);
                if in_acc > 0xFFFF_FFFF_FFFF_FFFFu128 {
                    proof {
                        lemma_in_sum_concat(
                            flat_in,
                            nn[ti as int].inputs.skip(j + 1) + inputs_of(nn.skip(ti + 1)),
                            u,
                        );
                        lemma_in_sum_nonneg(
                            nn[ti as int].inputs.skip(j + 1) + inputs_of(nn.skip(ti + 1)),
                            u,
                        );
                        lemma_flat_window(nn, ti as int, j + 1);
                        assert(in_values_sum(inputs_of(nn), u) > u64::MAX);
                    }
                    return Err(crate::error::BtcError::InvalidTransaction);
                }
                j = j + 1;
            }
            proof {
                assert(nn[ti as int].inputs.take(nn[ti as int].inputs.len() as int) =~= nn[
                    ti as int].inputs);
                lemma_take_snoc(nn, ti as int);
                assert(flat_in == inputs_of(nn.take(t as int)));
                assert(flat_out =~= outputs_of(nn.take(ti as int)) + nn[ti as int].outputs.take(
                    0,
                ));
            }
            let mut k: usize = 0;
            while k < tx.outputs.len()
                invariant
                    1 <= t < n,
                    n == self.transactions@.len(),
                    all == self@.txs,
                    nn == non_coinbase(all),
                    u == utxos@,
                    ti == t - 1,
                    tx@ == nn[ti as int],
                    tx@ == self.transactions@[t as int]@,
                    k <= tx.outputs@.len(),
                    tx@.outputs == tx.outputs@.map_values(
                        |x: crate::types::transaction::TransactionOutput| x@,
                    ),
                    flat_in == inputs_of(nn.take(t as int)),
                    flat_out == outputs_of(nn.take(ti as int)) + nn[ti as int].outputs.take(
                        k as int,
                    ),
                    all_present(flat_in, u),
                    distinct_prevs(flat_in),
                    distinct_out_hashes(flat_out),
                    in_acc == in_values_sum(flat_in, u),
                    out_acc == out_values_sum(flat_out),
                    in_acc <= u64::MAX,
                    out_acc <= u64::MAX,
                    seen_in@.len() == flat_in.len(),
                    forall|i: int|
                        0 <= i < flat_in.len() ==> (#[trigger] seen_in@[i])@ == flat_in[i].prev,
                    seen_out@.len() == flat_out.len(),
                    forall|i: int|
                        0 <= i < flat_out.len() ==> (#[trigger] seen_out@[i])@
                            == crate::types::transaction::out_hash(flat_out[i]),
                decreases tx.outputs@.len() - k,
            {
                let output = &tx.outputs[k];
                let oh = output.hash();
                proof {
                    lemma_flat_window_out(nn, ti as int, k as int);
                    assert(nn[ti as int].outputs.skip(k as int).first() == output@);
                    assert(outputs_of(nn)[flat_out.len() as int] == output@) by {
                        assert(outputs_of(nn) == flat_out + (nn[ti as int].outputs.skip(k as int)
                            + outputs_of(nn.skip(ti + 1))));
                    }
                }
                if contains_hash(&seen_out, &oh) {
                    proof {
                        let i = choose|i: int|
                            0 <= i < seen_out@.len() && (#[trigger] seen_out@[i])@ == oh@;
                        assert(crate::types::transaction::out_hash(outputs_of(nn)[i])
                            == crate::types::transaction::out_hash(
                            outputs_of(nn)[flat_out.len() as int],
                        ));
                        assert(!distinct_out_hashes(outputs_of(nn)));
                    }
                    return Err(crate::error::BtcError::InvalidTransaction);
                }
                seen_out.push(oh);
                proof {
                    lemma_out_sum_snoc(flat_out, output@);
                    let pre = flat_out;
                    flat_out = flat_out.push(output@);
                    assert(distinct_out_hashes(flat_out)) by {
                        assert forall|a: int, b: int| 0 <= a < b < flat_out.len() implies crate::types::transaction::out_hash(
                            #[trigger] flat_out[a],
                        ) != crate::types::transaction::out_hash(#[trigger] flat_out[b]) by {
                            if b == flat_out.len() - 1 {
                                assert(flat_out[a] == pre[a]);
                                assert(seen_out@[a]@ == crate::types::transaction::out_hash(
                                    pre[a],
                                ));
                            } else {
                                assert(flat_out[a] == pre[a]);
                                assert(flat_out[b] == pre[b]);
                            }
                        }
                    }
                    assert(flat_out =~= outputs_of(nn.take(ti as int)) + nn[ti as int].outputs.take(
                        k + 1,
                    ));
                }
                out_acc = out_acc + (output.value as u128);
                if out_acc > 0xFFFF_FFFF_FFFF_FFFFu128 {
                    proof {
                        lemma_out_sum_concat(
                            flat_out,
                            nn[ti as int].outputs.skip(k + 1) + outputs_of(nn.skip(ti + 1)),
                        );
                        lemma_out_sum_nonneg(
                            nn[ti as int].outputs.skip(k + 1) + outputs_of(nn.skip(ti + 1)),
                        );
                        lemma_flat_window_out(nn, ti as int, k + 1);
                        assert(out_values_sum(outputs_of(nn)) > u64::MAX);
                    }
                    return Err(crate::error::BtcError::InvalidTransaction);
                }
                k = k + 1;
            }
            proof {
                assert(nn[ti as int].outputs.take(nn[ti as int].outputs.len() as int) =~= nn[
                    ti as int].outputs);
                assert(flat_out == outputs_of(nn.take(t as int)));
            }
            t = t + 1;
        }
        proof {
            if n == 0 {
                assert(nn.take(0) =~= nn);
            } else {
                assert(nn.take(n - 1) =~= nn);
            }
        }
        if out_acc > in_acc {
            return Err(crate::error::BtcError::InvalidTransaction);
        }
        Ok((in_acc - out_acc) as u64)
    }
}

/// The block subsidy at a height: the initial reward in satoshis, halved
/// every halving interval, zero after 64 halvings.
pub open spec fn reward_of(height: nat) -> nat {
    let halvings = height / (crate::HALVING_INTERVAL as nat);
    if halvings >= 64 {
        0
    } else {
        5_000_000_000nat / vstd::arithmetic::power2::pow2(halvings)
    }
}

/// Computes the block subsidy at a height.
pub fn block_reward_for(height: u64) -> (r: u64)
    ensures
        r == reward_of(height as nat),
{
    let halvings: u64 = height / crate::HALVING_INTERVAL;
    if halvings >= 64 {
        return 0;
    }
    let mut r: u64 = 5_000_000_000;
    let mut i: u64 = 0;
    proof {
        assert(vstd::arithmetic::power2::pow2(0) == 1) by {
            vstd::arithmetic::power2::lemma_pow2(0);
            vstd::arithmetic::power::lemma_pow0(2);
        }
        assert(5_000_000_000u64 / 1 == 5_000_000_000) by (nonlinear_arith);
    }
    while i < halvings
        invariant
            i <= halvings < 64,
            r == 5_000_000_000nat / vstd::arithmetic::power2::pow2(i as nat),
        decreases halvings - i,
    {
        proof {
            let p = vstd::arithmetic::power2::pow2(i as nat);
            vstd::arithmetic::power2::lemma_pow2_pos(i as nat);
            lemma_div_denominator(5_000_000_000, p as int, 2);
            assert(vstd::arithmetic::power2::pow2((i + 1) as nat) == p * 2) by {
                vstd::arithmetic::power2::lemma_pow2_adds(i as nat, 1);
                assert(vstd::arithmetic::power2::pow2(1) == 2) by {
                    vstd::arithmetic::power2::lemma_pow2(1);
                    vstd::arithmetic::power::lemma_pow1(2);
                }
            }
        }
        r = r / 2;
        i = i + 1;
    }
    r
}

/// The coinbase rule: no inputs, at least one output, and a total payout
/// of exactly the subsidy plus the miner fee.
pub open spec fn coinbase_verdict(b: BlockV, height: u64, u: Seq<crate::types::utxo::UtxoEntryV>) -> Result<
    (),
    crate::error::BtcError,
>
    recommends
        b.txs.len() > 0,
{
    let cb = b.txs[0];
    if cb.inputs.len() != 0 {
        Err(crate::error::BtcError::InvalidTransaction)
    } else if cb.outputs.len() == 0 {
        Err(crate::error::BtcError::InvalidTransaction)
    } else if !fees_ok(b, u) {
        Err(crate::error::BtcError::InvalidTransaction)
    } else if out_values_sum(cb.outputs) != reward_of(height as nat) + miner_fee(b, u) {
        Err(crate::error::BtcError::InvalidTransaction)
    } else {
        Ok(())
    }
}

/// Whether every input signature of a transaction verifies over its
/// consumed output's hash under that output's key.
pub open spec fn tx_sigs_ok(t: TxV, u: Seq<crate::types::utxo::UtxoEntryV>) -> bool {
    forall|i: int|
        0 <= i < t.inputs.len() ==> crate::crypto::sig_valid(
            (#[trigger] t.inputs[i]).sig,
            t.inputs[i].prev.reverse(),
            crate::types::utxo::entry_of(u, t.inputs[i].prev).output.pubkey,
        )
}

/// Whether a transaction consumes at least as much as it creates.
pub open spec fn tx_value_ok(t: TxV, u: Seq<crate::types::utxo::UtxoEntryV>) -> bool {
    out_values_sum(t.outputs) <= in_values_sum(t.inputs, u)
}

/// The verdict over the non-coinbase transactions in order: the first
/// transaction with a bad signature is an InvalidSignature, a transaction
/// creating more than it consumes an InvalidTransaction.
pub open spec fn verify_rest(txs: Seq<TxV>, u: Seq<crate::types::utxo::UtxoEntryV>) -> Result<
    (),
    crate::error::BtcError,
>
    decreases txs.len(),
{
    if txs.len() == 0 {
        Ok(())
    } else if !tx_sigs_ok(txs.first(), u) {
        Err(crate::error::BtcError::InvalidSignature)
    } else if !tx_value_ok(txs.first(), u) {
        Err(crate::error::BtcError::InvalidTransaction)
    } else {
        verify_rest(txs.drop_first(), u)
    }
}

/// The verdict over a block's transactions: an empty list is rejected,
/// the coinbase rule comes before the per-transaction checks, and later
/// transactions are examined in order.
pub open spec fn txs_verdict(b: BlockV, height: u64, u: Seq<crate::types::utxo::UtxoEntryV>) -> Result<
    (),
    crate::error::BtcError,
> {
    if b.txs.len() == 0 {
        Err(crate::error::BtcError::InvalidTransaction)
    } else if coinbase_verdict(b, height, u) != Ok::<(), crate::error::BtcError>(()) {
        coinbase_verdict(b, height, u)
    } else {
        verify_rest(non_coinbase(b.txs), u)
    }
}

impl Block {
    /// Checks the coinbase rule of this block at the given height against
    /// a UTXO set.
    pub fn verify_coinbase_transaction(
        &self,
        predicted_block_height: u64,
        utxos: &crate::types::utxo::UtxoSet,
    ) -> (r: Result<(), crate::error::BtcError>)
        requires
            self@.txs.len() > 0,
        ensures
            r == coinbase_verdict(self@, predicted_block_height, utxos@),
    {
        let cb = &self.transactions[0];
        if cb.inputs.len() != 0 {
            return Err(crate::error::BtcError::InvalidTransaction);
        }
        if cb.outputs.len() == 0 {
            return Err(crate::error::BtcError::InvalidTransaction);
        }
        let fee = match self.calculate_miner_fees(utxos) {
            Ok(f) => f,
            Err(e) => {
                return Err(e);
            },
        };
        let reward = block_reward_for(predicted_block_height);
        let mut total: u128 = 0;
        let mut k: usize = 0;
        let ghost outs = self@.txs[0].outputs;
        proof {
            assert(outs.take(0) =~= Seq::<crate::types::transaction::TxOutV>::empty());
        }
        while k < cb.outputs.len()
            invariant
                k <= cb.outputs@.len(),
                outs == cb.outputs@.map_values(
                    |x: crate::types::transaction::TransactionOutput| x@,
                ),
                total == out_values_sum(outs.take(k as int)),
                total <= k * 0xFFFF_FFFF_FFFF_FFFFu128,
            decreases cb.outputs@.len() - k,
        {
            proof {
                lemma_out_sum_snoc(outs.take(k as int), outs[k as int]);
                assert(outs.take(k + 1) =~= outs.take(k as int).push(outs[k as int]));
                assert((k + 1) * 0xFFFF_FFFF_FFFF_FFFFu128 == k * 0xFFFF_FFFF_FFFF_FFFFu128
                    + 0xFFFF_FFFF_FFFF_FFFFu128) by (nonlinear_arith);
                vstd::std_specs::vec::axiom_spec_len(&cb.outputs);
                assert(k * 0xFFFF_FFFF_FFFF_FFFFu128 <= 0xFFFF_FFFF_FFFF_FFFFu128
                    * 0xFFFF_FFFF_FFFF_FFFFu128) by (nonlinear_arith)
                    requires
                        k <= 0xFFFF_FFFF_FFFF_FFFFu128,
                ;
            }
            total = total + (cb.outputs[k].value as u128);
            k = k + 1;
        }
        proof {
            assert(outs.take(outs.len() as int) =~= outs);
        }
        if total != (reward as u128) + (fee as u128) {
            return Err(crate::error::BtcError::InvalidTransaction);
        }
        Ok(())
    }

    /// Checks every transaction of this block at the given height against
    /// a UTXO set: the coinbase rule, each input's presence, uniqueness
    /// and signature, and each transaction's value balance.
    pub fn verify_transactions(
        &self,
        predicted_block_height: u64,
        utxos: &crate::types::utxo::UtxoSet,
    ) -> (r: Result<(), crate::error::BtcError>)
        ensures
            r == txs_verdict(self@, predicted_block_height, utxos@),
    {
        let ghost u = utxos@;
        let ghost all = self@.txs;
        let ghost nn = non_coinbase(all);
        let n = self.transactions.len();
        if n == 0 {
            return Err(crate::error::BtcError::InvalidTransaction);
        }
        match self.verify_coinbase_transaction(predicted_block_height, utxos) {
            Ok(_) => {},
            Err(e) => {
                return Err(e);
            },
        }
        let mut t: usize = 1;
        proof {
            assert(nn.skip(0) =~= nn);
        }
        while t < n
            invariant
                1 <= t <= n,
                n == self.transactions@.len(),
                all == self@.txs,
                nn == non_coinbase(all),
                u == utxos@,
                fees_ok(self@, u),
                coinbase_verdict(self@, predicted_block_height, u) == Ok::<
                    (),
                    crate::error::BtcError,
                >(()),
                verify_rest(nn, u) == verify_rest(nn.skip(t - 1), u),
            decreases n - t,
        {
            let ghost ti = t - 1;
            let tx = &self.transactions[t];
            proof {
                assert(nn[ti as int] == all[t as int]);
                assert(nn.skip(ti as int).first() == nn[ti as int]);
                assert(nn.skip(ti as int).drop_first() =~= nn.skip(t as int));
            }
            let mut in_acc: u128 = 0;
            let mut j: usize = 0;
            proof {
                assert(nn[ti as int].inputs.take(0) =~= Seq::<
                    crate::types::transaction::TxInV,
                >::empty());
            }
            while j < tx.inputs.len()
                invariant
                    1 <= t < n,
                    n == self.transactions@.len(),
                    all == self@.txs,
                    nn == non_coinbase(all),
                    u == utxos@,
                    ti == t - 1,
                    tx@ == nn[ti as int],
                    j <= tx.inputs@.len(),
                    tx@.inputs == tx.inputs@.map_values(
                        |x: crate::types::transaction::TransactionInput| x@,
                    ),
                    fees_ok(self@, u),
                    coinbase_verdict(self@, predicted_block_height, u) == Ok::<
                        (),
                        crate::error::BtcError,
                    >(()),
                    verify_rest(nn, u) == verify_rest(nn.skip(ti as int), u),
                    nn.skip(ti as int).first() == nn[ti as int],
                    in_acc == in_values_sum(nn[ti as int].inputs.take(j as int), u),
                    in_acc <= j * 0xFFFF_FFFF_FFFF_FFFFu128,
                    forall|i: int|
                        0 <= i < j ==> crate::crypto::sig_valid(
                            (#[trigger] nn[ti as int].inputs[i]).sig,
                            nn[ti as int].inputs[i].prev.reverse(),
                            crate::types::utxo::entry_of(
                                u,
                                nn[ti as int].inputs[i].prev,
                            ).output.pubkey,
                        ),
                decreases tx.inputs@.len() - j,
            {
                let input = &tx.inputs[j];
                proof {
                    lemma_flat_window(nn, ti as int, j as int);
                    assert(nn[ti as int].inputs.skip(j as int).first() == input@);
                    let flat = inputs_of(nn.take(ti as int)) + nn[ti as int].inputs.take(j as int);
                    assert(inputs_of(nn)[flat.len() as int] == input@) by {
                        assert(inputs_of(nn) == flat + (nn[ti as int].inputs.skip(j as int)
                            + inputs_of(nn.skip(ti + 1))));
                    }
                    assert(crate::types::utxo::has_key(u, input@.prev));
                }
                let entry = match utxos.get(&input.prev_transaction_output_hash) {
                    Some(e) => e,
                    None => {
                        proof {
                            assert(false);
                        }
                        return Err(crate::error::BtcError::InvalidTransaction);
                    },
                };
                if !input.signature.verify(&input.prev_transaction_output_hash, &entry.output.pubkey)
                 {
                    proof {
                        assert(!tx_sigs_ok(nn.skip(ti as int).first(), u));
                        assert(verify_rest(nn.skip(ti as int), u) == Err::<
                            (),
                            crate::error::BtcError,
                        >(crate::error::BtcError::InvalidSignature));
                    }
                    return Err(crate::error::BtcError::InvalidSignature);
                }
                proof {
                    lemma_in_sum_snoc(nn[ti as int].inputs.take(j as int), input@, u);
                    assert(nn[ti as int].inputs.take(j + 1) =~= nn[ti as int].inputs.take(
                        j as int,
                    ).push(input@));
                    assert((j + 1) * 0xFFFF_FFFF_FFFF_FFFFu128 == j * 0xFFFF_FFFF_FFFF_FFFFu128
                        + 0xFFFF_FFFF_FFFF_FFFFu128) by (nonlinear_arith);
                    vstd::std_specs::vec::axiom_spec_len(&tx.inputs);
                    assert(j * 0xFFFF_FFFF_FFFF_FFFFu128 <= 0xFFFF_FFFF_FFFF_FFFFu128
                        * 0xFFFF_FFFF_FFFF_FFFFu128) by (nonlinear_arith)
                        requires
                            j <= 0xFFFF_FFFF_FFFF_FFFFu128,
                    ;
                }
                in_acc = in_acc + (entry.output.value as u128);
                j = j + 1;
            }
            proof {
                assert(nn[ti as int].inputs.take(nn[ti as int].inputs.len() as int) =~= nn[
                    ti as int].inputs);
                assert(tx_sigs_ok(nn[ti as int], u));
            }
            let mut out_acc: u128 = 0;
            let mut k: usize = 0;
            proof {
                assert(nn[ti as int].outputs.take(0) =~= Seq::<
                    crate::types::transaction::TxOutV,
                >::empty());
            }
            while k < tx.outputs.len()
                invariant
                    tx@ == nn[ti as int],
                    k <= tx.outputs@.len(),
                    tx@.outputs == tx.outputs@.map_values(
                        |x: crate::types::transaction::TransactionOutput| x@,
                    ),
                    out_acc == out_values_sum(nn[ti as int].outputs.take(k as int)),
                    out_acc <= k * 0xFFFF_FFFF_FFFF_FFFFu128,
                decreases tx.outputs@.len() - k,
            {
                proof {
                    lemma_out_sum_snoc(nn[ti as int].outputs.take(k as int), tx@.outputs[k as int]);
                    assert(nn[ti as int].outputs.take(k + 1) =~= nn[ti as int].outputs.take(
                        k as int,
                    ).push(tx@.outputs[k as int]));
                    assert((k + 1) * 0xFFFF_FFFF_FFFF_FFFFu128 == k * 0xFFFF_FFFF_FFFF_FFFFu128
                        + 0xFFFF_FFFF_FFFF_FFFFu128) by (nonlinear_arith);
                    vstd::std_specs::vec::axiom_spec_len(&tx.outputs);
                    assert(k * 0xFFFF_FFFF_FFFF_FFFFu128 <= 0xFFFF_FFFF_FFFF_FFFFu128
                        * 0xFFFF_FFFF_FFFF_FFFFu128) by (nonlinear_arith)
                        requires
                            k <= 0xFFFF_FFFF_FFFF_FFFFu128,
                    ;
                }
                out_acc = out_acc + (tx.outputs[k].value as u128);
                k = k + 1;
            }
            proof {
                assert(nn[ti as int].outputs.take(nn[ti as int].outputs.len() as int) =~= nn[
                    ti as int].outputs);
            }
            if in_acc < out_acc {
                proof {
                    assert(!tx_value_ok(nn.skip(ti as int).first(), u));
                    assert(verify_rest(nn.skip(ti as int), u) == Err::<(), crate::error::BtcError>(
                        crate::error::BtcError::InvalidTransaction,
                    ));
                }
                return Err(crate::error::BtcError::InvalidTransaction);
            }
            proof {
                assert(tx_value_ok(nn.skip(ti as int).first(), u));
                assert(verify_rest(nn.skip(ti as int), u) == verify_rest(nn.skip(t as int), u));
            }
            t = t + 1;
        }
        proof {
            assert(nn.skip(n - 1) =~= Seq::<TxV>::empty());
        }
        Ok(())
    }
}

use vstd::arithmetic::div_mod::lemma_div_denominator;

/// Taking one more transaction appends its inputs and outputs.
pub proof fn lemma_take_snoc(s: Seq<TxV>, t: int)
    requires
        0 <= t < s.len(),
    ensures
        inputs_of(s.take(t + 1)) == inputs_of(s.take(t)) + s[t].inputs,
        outputs_of(s.take(t + 1)) == outputs_of(s.take(t)) + s[t].outputs,
{
    lemma_inputs_of_split(s.take(t + 1), t);
    lemma_outputs_of_split(s.take(t + 1), t);
    assert(s.take(t + 1).take(t) =~= s.take(t));
    assert(s.take(t + 1).skip(t) =~= seq![s[t]]);
    let single = seq![s[t]];
    assert(single.drop_first() =~= Seq::<TxV>::empty());
    assert(single.first() == s[t]);
    assert(inputs_of(Seq::<TxV>::empty()) == Seq::<crate::types::transaction::TxInV>::empty());
    assert(outputs_of(Seq::<TxV>::empty()) == Seq::<crate::types::transaction::TxOutV>::empty());
    assert(inputs_of(single) =~= s[t].inputs);
    assert(outputs_of(single) =~= s[t].outputs);
}

/// A transaction encoding is at least 16 bytes, so a list has at most as
/// many elements as it has bytes.
proof fn lemma_tx_seq_len(s: Seq<TxV>)
    ensures
        enc_tx_seq(s).len() >= 16 * s.len(),
    decreases s.len(),
{
    if s.len() > 0 {
        lemma_tx_seq_len(s.drop_first());
        assert(enc_tx(s.first()).len() >= 16);
        assert(enc_tx_seq(s).len() == enc_tx(s.first()).len() + enc_tx_seq(s.drop_first()).len());
    }
}

} // verus!
