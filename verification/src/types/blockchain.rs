//! The ledger aggregate: accepted blocks, the UTXO index, the difficulty
//! target and the fee-ordered mempool.
use crate::error::BtcError;
use crate::merkle::merkle_root_of;
use crate::numeric::{nat_of, pow256};
use crate::types::block::{
    all_present, distinct_prevs, header_hash, in_values_sum, lemma_in_sum_snoc, lemma_out_sum_snoc,
    out_values_sum, Block, BlockV,
};
use crate::types::transaction::{tx_hash, Transaction, TxInV, TxV};
use crate::types::utxo::{
    entry_of, has_key, spec_insert, spec_remove, spec_set_marked, wf_utxo_seq, UtxoEntryV, UtxoSet,
};
use crate::u256::{min_target_spec, U256};
use vstd::prelude::*;

verus! {

/// Ghost form of one mempool entry.
pub ghost struct MempoolEntryV {
    /// Admission time, seconds since the epoch.
    pub timestamp: i64,
    /// Miner fee at admission.
    pub fee: u64,
    pub tx: TxV,
}

/// A validated, not yet mined transaction with its admission time and fee.
pub struct MempoolEntry {
    pub timestamp: i64,
    pub fee: u64,
    pub transaction: Transaction,
}

impl View for MempoolEntry {
    type V = MempoolEntryV;

    open spec fn view(&self) -> MempoolEntryV {
        MempoolEntryV { timestamp: self.timestamp, fee: self.fee, tx: self.transaction@ }
    }
}

impl Clone for MempoolEntry {
    fn clone(&self) -> (r: Self)
        ensures
            r@ == self@,
    {
        MempoolEntry {
            timestamp: self.timestamp,
            fee: self.fee,
            transaction: self.transaction.clone(),
        }
    }
}

/// Ghost form of the whole ledger state.
pub ghost struct ChainV {
    pub blocks: Seq<BlockV>,
    pub target: Seq<u8>,
    pub utxos: Seq<UtxoEntryV>,
    pub mempool: Seq<MempoolEntryV>,
}

/// Every block links to the hash of the header before it.
pub open spec fn chain_linked(blocks: Seq<BlockV>) -> bool {
    forall|i: int|
        1 <= i < blocks.len() ==> (#[trigger] blocks[i]).header.prev == header_hash(
            blocks[i - 1].header,
        )
}

/// Timestamps strictly increase along the chain.
pub open spec fn times_increasing(blocks: Seq<BlockV>) -> bool {
    forall|i: int|
        1 <= i < blocks.len() ==> blocks[i - 1].header.timestamp < (
        #[trigger] blocks[i]).header.timestamp
}

/// Every block after the genesis hashes at or under its own target.
pub open spec fn pow_ok(blocks: Seq<BlockV>) -> bool {
    forall|i: int|
        1 <= i < blocks.len() ==> nat_of(header_hash((#[trigger] blocks[i]).header)) <= nat_of(
            blocks[i].header.target,
        )
}

/// Every block after the genesis carries the Merkle root of its own
/// transactions.
pub open spec fn merkle_ok(blocks: Seq<BlockV>) -> bool {
    forall|i: int|
        1 <= i < blocks.len() ==> (#[trigger] blocks[i]).header.merkle_root == merkle_root_of(
            blocks[i].txs,
        )
}

/// The mempool is sorted by descending miner fee.
pub open spec fn mempool_sorted(m: Seq<MempoolEntryV>) -> bool {
    forall|i: int, j: int| 0 <= i < j < m.len() ==> (#[trigger] m[i]).fee >= (#[trigger] m[j]).fee
}

/// Well-formedness of the ledger: shaped values, a target no easier than
/// the minimum, unique UTXO keys, a linked chain with increasing times,
/// proof of work and consistent Merkle roots, and a fee-sorted mempool.
pub open spec fn chain_wf(c: ChainV) -> bool {
    &&& c.target.len() == 32
    &&& nat_of(c.target) <= nat_of(min_target_spec())
    &&& wf_utxo_seq(c.utxos)
    &&& (forall|i: int| 0 <= i < c.blocks.len() ==> (#[trigger] c.blocks[i]).wf())
    &&& chain_linked(c.blocks)
    &&& times_increasing(c.blocks)
    &&& pow_ok(c.blocks)
    &&& merkle_ok(c.blocks)
    &&& mempool_sorted(c.mempool)
    &&& (forall|i: int| 0 <= i < c.mempool.len() ==> (#[trigger] c.mempool[i]).tx.wf())
}

/// The core aggregate: accepted blocks (index is height), the UTXO index,
/// the current difficulty target, and the mempool.
pub struct Blockchain {
    utxos: UtxoSet,
    target: U256,
    blocks: Vec<Block>,
    mempool: Vec<MempoolEntry>,
}

impl View for Blockchain {
    type V = ChainV;

    closed spec fn view(&self) -> ChainV {
        ChainV {
            blocks: self.blocks@.map_values(|b: Block| b@),
            target: self.target@,
            utxos: self.utxos@,
            mempool: self.mempool@.map_values(|e: MempoolEntry| e@),
        }
    }
}

/// Removing the outputs a transaction's inputs consume, in order.
pub open spec fn remove_inputs(u: Seq<UtxoEntryV>, ins: Seq<TxInV>) -> Seq<UtxoEntryV>
    decreases ins.len(),
{
    if ins.len() == 0 {
        u
    } else {
        remove_inputs(spec_remove(u, ins.first().prev), ins.drop_first())
    }
}

/// Inserting a transaction's outputs unmarked, keyed by their own hash.
pub open spec fn insert_outputs(
    u: Seq<UtxoEntryV>,
    outs: Seq<crate::types::transaction::TxOutV>,
) -> Seq<UtxoEntryV>
    decreases outs.len(),
{
    if outs.len() == 0 {
        u
    } else {
        insert_outputs(
            spec_insert(
                u,
                UtxoEntryV {
                    hash: crate::types::transaction::out_hash(outs.first()),
                    marked: false,
                    output: outs.first(),
                },
            ),
            outs.drop_first(),
        )
    }
}

/// One transaction replayed against the UTXO index.
pub open spec fn apply_tx(u: Seq<UtxoEntryV>, t: TxV) -> Seq<UtxoEntryV> {
    insert_outputs(remove_inputs(u, t.inputs), t.outputs)
}

/// A transaction list replayed in order.
pub open spec fn apply_txs(u: Seq<UtxoEntryV>, txs: Seq<TxV>) -> Seq<UtxoEntryV>
    decreases txs.len(),
{
    if txs.len() == 0 {
        u
    } else {
        apply_txs(apply_tx(u, txs.first()), txs.drop_first())
    }
}

/// The whole chain replayed in order.
pub open spec fn replay(u: Seq<UtxoEntryV>, blocks: Seq<BlockV>) -> Seq<UtxoEntryV>
    decreases blocks.len(),
{
    if blocks.len() == 0 {
        u
    } else {
        replay(apply_txs(u, blocks.first().txs), blocks.drop_first())
    }
}

/// Left folds consume an appended element last: inputs.
pub proof fn lemma_remove_inputs_snoc(u: Seq<UtxoEntryV>, s: Seq<TxInV>, e: TxInV)
    ensures
        remove_inputs(u, s.push(e)) == spec_remove(remove_inputs(u, s), e.prev),
    decreases s.len(),
{
    if s.len() == 0 {
        assert(s.push(e).first() == e);
        assert(s.push(e).drop_first() =~= Seq::<TxInV>::empty());
        assert(remove_inputs(spec_remove(u, e.prev), Seq::<TxInV>::empty()) == spec_remove(
            u,
            e.prev,
        ));
        assert(remove_inputs(u, s) == u);
    } else {
        assert(s.push(e).first() == s.first());
        assert(s.push(e).drop_first() =~= s.drop_first().push(e));
        lemma_remove_inputs_snoc(spec_remove(u, s.first().prev), s.drop_first(), e);
    }
}

/// Left folds consume an appended element last: outputs.
pub proof fn lemma_insert_outputs_snoc(
    u: Seq<UtxoEntryV>,
    s: Seq<crate::types::transaction::TxOutV>,
    e: crate::types::transaction::TxOutV,
)
    ensures
        insert_outputs(u, s.push(e)) == spec_insert(
            insert_outputs(u, s),
            UtxoEntryV {
                hash: crate::types::transaction::out_hash(e),
                marked: false,
                output: e,
            },
        ),
    decreases s.len(),
{
    if s.len() == 0 {
        assert(s.push(e).first() == e);
        assert(s.push(e).drop_first() =~= Seq::<crate::types::transaction::TxOutV>::empty());
        let ne = UtxoEntryV {
            hash: crate::types::transaction::out_hash(e),
            marked: false,
            output: e,
        };
        assert(insert_outputs(
            spec_insert(u, ne),
            Seq::<crate::types::transaction::TxOutV>::empty(),
        ) == spec_insert(u, ne));
        assert(insert_outputs(u, s) == u);
    } else {
        assert(s.push(e).first() == s.first());
        assert(s.push(e).drop_first() =~= s.drop_first().push(e));
        lemma_insert_outputs_snoc(
            spec_insert(
                u,
                UtxoEntryV {
                    hash: crate::types::transaction::out_hash(s.first()),
                    marked: false,
                    output: s.first(),
                },
            ),
            s.drop_first(),
            e,
        );
    }
}

/// Left folds consume an appended element last: transactions.
pub proof fn lemma_apply_txs_snoc(u: Seq<UtxoEntryV>, s: Seq<TxV>, e: TxV)
    ensures
        apply_txs(u, s.push(e)) == apply_tx(apply_txs(u, s), e),
    decreases s.len(),
{
    if s.len() == 0 {
        assert(s.push(e).first() == e);
        assert(s.push(e).drop_first() =~= Seq::<TxV>::empty());
        assert(apply_txs(apply_tx(u, e), Seq::<TxV>::empty()) == apply_tx(u, e));
        assert(apply_txs(u, s) == u);
    } else {
        assert(s.push(e).first() == s.first());
        assert(s.push(e).drop_first() =~= s.drop_first().push(e));
        lemma_apply_txs_snoc(apply_tx(u, s.first()), s.drop_first(), e);
    }
}

/// Left folds consume an appended element last: blocks.
pub proof fn lemma_replay_snoc(u: Seq<UtxoEntryV>, s: Seq<BlockV>, e: BlockV)
    ensures
        replay(u, s.push(e)) == apply_txs(replay(u, s), e.txs),
    decreases s.len(),
{
    if s.len() == 0 {
        assert(s.push(e).first() == e);
        assert(s.push(e).drop_first() =~= Seq::<BlockV>::empty());
        assert(replay(apply_txs(u, e.txs), Seq::<BlockV>::empty()) == apply_txs(u, e.txs));
        assert(replay(u, s) == u);
    } else {
        assert(s.push(e).first() == s.first());
        assert(s.push(e).drop_first() =~= s.drop_first().push(e));
        lemma_replay_snoc(apply_txs(u, s.first().txs), s.drop_first(), e);
    }
}

impl Blockchain {
    pub open spec fn wf(&self) -> bool {
        chain_wf(self@)
    }

    /// A fresh ledger: no blocks, no coins, the easiest target, an empty
    /// mempool.
    pub fn new() -> (r: Blockchain)
        ensures
            r@.blocks =~= Seq::<BlockV>::empty(),
            r@.utxos =~= Seq::<UtxoEntryV>::empty(),
            r@.mempool =~= Seq::<MempoolEntryV>::empty(),
            r@.target == min_target_spec(),
            r.wf(),
    {
        let r = Blockchain {
            utxos: UtxoSet::new(),
            target: U256::min_target(),
            blocks: Vec::new(),
            mempool: Vec::new(),
        };
        proof {
            assert(r@.blocks =~= Seq::<BlockV>::empty());
            assert(r@.mempool =~= Seq::<MempoolEntryV>::empty());
        }
        r
    }

    /// The UTXO index.
    pub fn utxos(&self) -> (r: &UtxoSet)
        ensures
            r@ == self@.utxos,
    {
        &self.utxos
    }

    /// The current difficulty target.
    pub fn target(&self) -> (r: U256)
        ensures
            r@ == self@.target,
    {
        self.target.clone()
    }

    /// The accepted blocks; the index of a block is its height.
    pub fn blocks(&self) -> (r: &Vec<Block>)
        ensures
            r@.map_values(|b: Block| b@) == self@.blocks,
    {
        &self.blocks
    }

    /// The number of accepted blocks.
    pub fn block_height(&self) -> (r: u64)
        ensures
            r == self@.blocks.len(),
    {
        self.blocks.len() as u64
    }

    /// The mempool, sorted by descending miner fee.
    pub fn mempool(&self) -> (r: &Vec<MempoolEntry>)
        ensures
            r@.map_values(|e: MempoolEntry| e@) == self@.mempool,
    {
        &self.mempool
    }

    /// The block subsidy at the current height.
    pub fn calculate_block_reward(&self) -> (r: u64)
        ensures
            r == crate::types::block::reward_of(self@.blocks.len()),
    {
        crate::types::block::block_reward_for(self.blocks.len() as u64)
    }

    /// Replays the whole chain over the current UTXO index: each
    /// transaction removes what its inputs consume and inserts its outputs
    /// unmarked. The only routine that reconciles the index with the block
    /// history.
    pub fn rebuild_utxos(&mut self)
        ensures
            final(self)@.utxos == replay(old(self)@.utxos, old(self)@.blocks),
            final(self)@.blocks == old(self)@.blocks,
            final(self)@.target == old(self)@.target,
            final(self)@.mempool == old(self)@.mempool,
            wf_utxo_seq(old(self)@.utxos) ==> wf_utxo_seq(final(self)@.utxos),
            old(self).wf() ==> final(self).wf(),
    {
        let ghost u0 = self@.utxos;
        let ghost blocksv = self@.blocks;
        let n = self.blocks.len();
        let mut bi: usize = 0;
        proof {
            assert(blocksv.take(0) =~= Seq::<BlockV>::empty());
        }
        while bi < n
            invariant
                bi <= n,
                n == self.blocks@.len(),
                self@.blocks == blocksv,
                self@.mempool == old(self)@.mempool,
                self@.target == old(self)@.target,
                blocksv == old(self)@.blocks,
                self@.utxos == replay(u0, blocksv.take(bi as int)),
                wf_utxo_seq(u0) ==> wf_utxo_seq(self@.utxos),
            decreases n - bi,
        {
            let ghost ub = self@.utxos;
            let ghost txsv = blocksv[bi as int].txs;
            let tn = self.blocks[bi].transactions.len();
            let mut ti: usize = 0;
            proof {
                assert(txsv.take(0) =~= Seq::<TxV>::empty());
            }
            while ti < tn
                invariant
                    ti <= tn,
                    bi < n,
                    n == self.blocks@.len(),
                    tn == self.blocks@[bi as int].transactions@.len(),
                    self@.blocks == blocksv,
                    self@.mempool == old(self)@.mempool,
                    self@.target == old(self)@.target,
                    txsv == blocksv[bi as int].txs,
                    self@.utxos == apply_txs(ub, txsv.take(ti as int)),
                    wf_utxo_seq(u0) ==> wf_utxo_seq(self@.utxos),
                decreases tn - ti,
            {
                let ghost ut = self@.utxos;
                let ghost tv = txsv[ti as int];
                let inn = self.blocks[bi].transactions[ti].inputs.len();
                let mut ii: usize = 0;
                proof {
                    assert(tv.inputs.take(0) =~= Seq::<TxInV>::empty());
                }
                while ii < inn
                    invariant
                        ii <= inn,
                        bi < n,
                        ti < tn,
                        n == self.blocks@.len(),
                        tn == self.blocks@[bi as int].transactions@.len(),
                        inn == self.blocks@[bi as int].transactions@[ti as int].inputs@.len(),
                        self@.blocks == blocksv,
                        self@.mempool == old(self)@.mempool,
                        self@.target == old(self)@.target,
                        txsv == blocksv[bi as int].txs,
                        tv == txsv[ti as int],
                        self@.utxos == remove_inputs(ut, tv.inputs.take(ii as int)),
                        wf_utxo_seq(u0) ==> wf_utxo_seq(self@.utxos),
                    decreases inn - ii,
                {
                    let h = self.blocks[bi].transactions[ti].inputs[ii].prev_transaction_output_hash.clone();
                    proof {
                        lemma_remove_inputs_snoc(ut, tv.inputs.take(ii as int), tv.inputs[ii as int]);
                        assert(tv.inputs.take(ii + 1) =~= tv.inputs.take(ii as int).push(
                            tv.inputs[ii as int],
                        ));
                    }
                    proof {
                        if wf_utxo_seq(u0) {
                            crate::types::utxo::lemma_remove_wf(self@.utxos, h@);
                        }
                    }
                    self.utxos.remove(&h);
                    ii = ii + 1;
                }
                proof {
                    assert(tv.inputs.take(tv.inputs.len() as int) =~= tv.inputs);
                }
                let on = self.blocks[bi].transactions[ti].outputs.len();
                let mut oi: usize = 0;
                let ghost ur = self@.utxos;
                proof {
                    assert(tv.outputs.take(0) =~= Seq::<crate::types::transaction::TxOutV>::empty());
                }
                while oi < on
                    invariant
                        oi <= on,
                        bi < n,
                        ti < tn,
                        n == self.blocks@.len(),
                        tn == self.blocks@[bi as int].transactions@.len(),
                        on == self.blocks@[bi as int].transactions@[ti as int].outputs@.len(),
                        self@.blocks == blocksv,
                        self@.mempool == old(self)@.mempool,
                        self@.target == old(self)@.target,
                        txsv == blocksv[bi as int].txs,
                        tv == txsv[ti as int],
                        self@.utxos == insert_outputs(ur, tv.outputs.take(oi as int)),
                        wf_utxo_seq(u0) ==> wf_utxo_seq(self@.utxos),
                    decreases on - oi,
                {
                    let output = self.blocks[bi].transactions[ti].outputs[oi].clone();
                    let oh = output.hash();
                    proof {
                        lemma_insert_outputs_snoc(
                            ur,
                            tv.outputs.take(oi as int),
                            tv.outputs[oi as int],
                        );
                        assert(tv.outputs.take(oi + 1) =~= tv.outputs.take(oi as int).push(
                            tv.outputs[oi as int],
                        ));
                    }
                    proof {
                        if wf_utxo_seq(u0) {
                            crate::types::utxo::lemma_insert_wf(
                                self@.utxos,
                                UtxoEntryV { hash: oh@, marked: false, output: output@ },
                            );
                        }
                    }
                    self.utxos.insert(oh, false, output);
                    oi = oi + 1;
                }
                proof {
                    assert(tv.outputs.take(tv.outputs.len() as int) =~= tv.outputs);
                    lemma_apply_txs_snoc(ub, txsv.take(ti as int), tv);
                    assert(txsv.take(ti + 1) =~= txsv.take(ti as int).push(tv));
                }
                ti = ti + 1;
            }
            proof {
                assert(txsv.take(txsv.len() as int) =~= txsv);
                lemma_replay_snoc(u0, blocksv.take(bi as int), blocksv[bi as int]);
                assert(blocksv.take(bi + 1) =~= blocksv.take(bi as int).push(blocksv[bi as int]));
            }
            bi = bi + 1;
        }
        proof {
            assert(blocksv.take(n as int) =~= blocksv);
        }
    }
}

/// The retargeting rule: every DIFFICULTY_UPDATE_INTERVAL blocks, scale
/// the target by elapsed time over ideal time, clamp to a factor of four
/// in either direction, and cap at the easiest allowed target.
pub open spec fn retarget_value(blocks: Seq<BlockV>, cur: int) -> int {
    let n = blocks.len() as int;
    let interval = crate::DIFFICULTY_UPDATE_INTERVAL as int;
    if n < interval || n % interval != 0 {
        cur
    } else {
        let start = blocks[n - interval].header.timestamp as int;
        let end = blocks[n - 1].header.timestamp as int;
        let elapsed = end - start;
        let ideal = (crate::IDEAL_BLOCK_TIME * crate::DIFFICULTY_UPDATE_INTERVAL) as int;
        let q = (cur * elapsed) / ideal;
        let lo = cur / 4;
        let hi = cur * 4;
        let clamped = if q < lo {
            lo
        } else if q > hi {
            hi
        } else {
            q
        };
        if clamped <= nat_of(min_target_spec()) {
            clamped
        } else {
            nat_of(min_target_spec()) as int
        }
    }
}

/// Strict growth of timestamps extends over any distance.
pub proof fn lemma_times_mono(blocks: Seq<BlockV>, i: int, j: int)
    requires
        times_increasing(blocks),
        0 <= i < j < blocks.len(),
    ensures
        blocks[i].header.timestamp < blocks[j].header.timestamp,
    decreases j - i,
{
    if j > i + 1 {
        lemma_times_mono(blocks, i, j - 1);
    }
}

impl Blockchain {
    /// Adjusts the difficulty target at each retarget boundary; a no-op at
    /// any other height. Blocks, UTXOs and mempool never change.
    pub fn try_adjust_target(&mut self)
        requires
            old(self).wf(),
        ensures
            final(self)@.blocks == old(self)@.blocks,
            final(self)@.utxos == old(self)@.utxos,
            final(self)@.mempool == old(self)@.mempool,
            final(self)@.target.len() == 32,
            nat_of(final(self)@.target) == retarget_value(
                old(self)@.blocks,
                nat_of(old(self)@.target) as int,
            ),
            final(self).wf(),
    {
        let ghost c0 = self@;
        let ghost tval = nat_of(self@.target) as int;
        let n = self.blocks.len();
        proof {
            crate::u256::lemma_u256_bound(min_target_spec());
        }
        if (n as u64) < crate::DIFFICULTY_UPDATE_INTERVAL {
            return ;
        }
        if (n as u64) % crate::DIFFICULTY_UPDATE_INTERVAL != 0 {
            return ;
        }
        let interval = crate::DIFFICULTY_UPDATE_INTERVAL as usize;
        let start = self.blocks[n - interval].header.timestamp;
        let end = self.blocks[n - 1].header.timestamp;
        proof {
            lemma_times_mono(c0.blocks, n - interval, n - 1);
        }
        let elapsed: i128 = (end as i128) - (start as i128);
        let ideal: u64 = crate::IDEAL_BLOCK_TIME * crate::DIFFICULTY_UPDATE_INTERVAL;
        let cur = self.target.as_be_bytes();
        let hi = crate::numeric::mul_bytes_u64(cur, 4);
        let lo_pair = crate::numeric::div_bytes_u64(cur, 4);
        let lo = lo_pair.0;
        let lo_pad = crate::numeric::pad_left(&lo, 40);
        let ghost q = (tval * (elapsed as int)) / (ideal as int);
        let clamped: Vec<u8> = if elapsed >= 4 * (ideal as i128) {
            proof {
                lemma_q_over_hi(tval, elapsed as int, ideal as int);
                // q >= hi, so the clamp takes hi; if q == hi the value is
                // the same either way
                assert(nat_of(hi@) == (if q < tval / 4 {
                    tval / 4
                } else if q > tval * 4 {
                    tval * 4
                } else {
                    q
                }));
            }
            hi
        } else {
            let e64: u64 = elapsed as u64;
            let prod = crate::numeric::mul_bytes_u64(cur, e64);
            let q_pair = crate::numeric::div_bytes_u64(&prod, ideal);
            let q_bytes = q_pair.0;
            if !crate::numeric::le_bytes(&lo_pad, &q_bytes) {
                // q < lo
                lo_pad
            } else if !crate::numeric::le_bytes(&q_bytes, &hi) {
                // q > hi
                hi
            } else {
                q_bytes
            }
        };
        let mt = U256::min_target();
        let mt_pad = crate::numeric::pad_left(mt.as_be_bytes(), 40);
        let final40: Vec<u8> = if crate::numeric::le_bytes(&clamped, &mt_pad) {
            clamped
        } else {
            mt_pad
        };
        proof {
            crate::numeric::lemma_pow256_mono(30, 32);
        }
        let final32 = crate::numeric::shrink_to(&final40, 32);
        self.target = U256::from_be_bytes(final32);
        proof {
            assert(self@.blocks == c0.blocks);
            assert(self@.utxos == c0.utxos);
            assert(self@.mempool == c0.mempool);
        }
    }
}

/// An Ok verdict with a unit payload is the Ok value.
pub proof fn lemma_ok_unit(r: Result<(), BtcError>)
    requires
        r is Ok,
    ensures
        r == Ok::<(), BtcError>(()),
{
    match r {
        Ok(u) => {
            assert(u == ());
        },
        Err(_) => {},
    }
}

/// The all-zero previous-block link a genesis block must carry.
pub open spec fn zero_hash() -> Seq<u8> {
    Seq::new(32, |i: int| 0u8)
}

/// The acceptance rule for a new block: a genesis block needs only the
/// zero link; any later block must link to the tip, hash under its target,
/// carry the Merkle root of its transactions, move time forward, and pass
/// transaction verification against the current UTXO set.
pub open spec fn add_verdict(c: ChainV, b: BlockV) -> Result<(), BtcError> {
    if c.blocks.len() == 0 {
        if b.header.prev != zero_hash() {
            Err(BtcError::InvalidBlock)
        } else {
            Ok(())
        }
    } else {
        let last = c.blocks.last();
        if b.header.prev != header_hash(last.header) {
            Err(BtcError::InvalidBlock)
        } else if !(nat_of(header_hash(b.header)) <= nat_of(b.header.target)) {
            Err(BtcError::InvalidBlock)
        } else if b.txs.len() == 0 {
            Err(BtcError::InvalidTransaction)
        } else if b.header.merkle_root != merkle_root_of(b.txs) {
            Err(BtcError::InvalidMerkleRoot)
        } else if b.header.timestamp <= last.header.timestamp {
            Err(BtcError::InvalidBlock)
        } else {
            crate::types::block::txs_verdict(b, c.blocks.len() as u64, c.utxos)
        }
    }
}

/// Whether a mempool entry's transaction appears in a block.
pub open spec fn in_block(b: BlockV, e: MempoolEntryV) -> bool {
    exists|i: int| 0 <= i < b.txs.len() && tx_hash(e.tx) == tx_hash(#[trigger] b.txs[i])
}

/// The mempool with every entry evicted whose transaction the block now
/// carries.
pub open spec fn evict_mined(m: Seq<MempoolEntryV>, b: BlockV) -> Seq<MempoolEntryV>
    decreases m.len(),
{
    if m.len() == 0 {
        m
    } else {
        let rest = evict_mined(m.drop_first(), b);
        if in_block(b, m.first()) {
            rest
        } else {
            seq![m.first()] + rest
        }
    }
}

/// Eviction keeps order and drops nothing it should keep: the result is a
/// sorted subsequence of a sorted mempool, and every surviving entry is an
/// original entry.
pub proof fn lemma_evict_mined_props(m: Seq<MempoolEntryV>, b: BlockV)
    ensures
        forall|k: int|
            0 <= k < evict_mined(m, b).len() ==> exists|i: int|
                0 <= i < m.len() && #[trigger] evict_mined(m, b)[k] == m[i],
        mempool_sorted(m) ==> mempool_sorted(evict_mined(m, b)),
    decreases m.len(),
{
    if m.len() > 0 {
        lemma_evict_mined_props(m.drop_first(), b);
        let rest = evict_mined(m.drop_first(), b);
        let t = evict_mined(m, b);
        assert forall|k: int| 0 <= k < t.len() implies exists|i: int|
            0 <= i < m.len() && #[trigger] t[k] == m[i] by {
            if in_block(b, m.first()) {
                let i = choose|i: int| 0 <= i < m.drop_first().len() && rest[k] == m.drop_first()[i];
                assert(t[k] == m[i + 1]);
            } else {
                if k == 0 {
                    assert(t[0] == m[0]);
                } else {
                    let i = choose|i: int|
                        0 <= i < m.drop_first().len() && rest[k - 1] == m.drop_first()[i];
                    assert(t[k] == m[i + 1]);
                }
            }
        }
        if mempool_sorted(m) {
            assert(mempool_sorted(m.drop_first())) by {
                assert forall|i: int, j: int|
                    0 <= i < j < m.drop_first().len() implies (#[trigger] m.drop_first()[i]).fee
                    >= (#[trigger] m.drop_first()[j]).fee by {
                    assert(m.drop_first()[i] == m[i + 1]);
                    assert(m.drop_first()[j] == m[j + 1]);
                }
            }
            assert forall|i: int, j: int| 0 <= i < j < t.len() implies (#[trigger] t[i]).fee >= (
            #[trigger] t[j]).fee by {
                if !in_block(b, m.first()) && i == 0 {
                    let jj = choose|x: int|
                        0 <= x < m.drop_first().len() && rest[j - 1] == m.drop_first()[x];
                    assert(t[j] == m[jj + 1]);
                    assert(m[0].fee >= m[jj + 1].fee);
                }
            }
        }
    }
}

/// Appending one entry to an eviction.
pub proof fn lemma_evict_mined_snoc(m: Seq<MempoolEntryV>, b: BlockV, e: MempoolEntryV)
    ensures
        evict_mined(m.push(e), b) == evict_mined(m, b) + (if in_block(b, e) {
            Seq::<MempoolEntryV>::empty()
        } else {
            seq![e]
        }),
    decreases m.len(),
{
    if m.len() == 0 {
        assert(m.push(e).first() == e);
        assert(m.push(e).drop_first() =~= Seq::<MempoolEntryV>::empty());
        assert(evict_mined(Seq::<MempoolEntryV>::empty(), b) == Seq::<MempoolEntryV>::empty());
        assert(evict_mined(m, b) == m);
        if in_block(b, e) {
            assert(evict_mined(m.push(e), b) =~= evict_mined(m, b));
        } else {
            assert(evict_mined(m.push(e), b) =~= evict_mined(m, b) + seq![e]);
        }
    } else {
        assert(m.push(e).first() == m.first());
        assert(m.push(e).drop_first() =~= m.drop_first().push(e));
        lemma_evict_mined_snoc(m.drop_first(), b, e);
        if in_block(b, m.first()) {
        } else {
            if in_block(b, e) {
                assert(evict_mined(m.push(e), b) =~= evict_mined(m, b)
                    + Seq::<MempoolEntryV>::empty());
            } else {
                assert(seq![m.first()] + (evict_mined(m.drop_first(), b) + seq![e]) =~= (seq![
                    m.first(),
                ] + evict_mined(m.drop_first(), b)) + seq![e]);
            }
        }
    }
}

impl Blockchain {
    /// Appends a block when it satisfies every acceptance rule and evicts
    /// its transactions from the mempool, then retargets; on rejection
    /// nothing changes. The UTXO index is not updated here: callers that
    /// need it current call `rebuild_utxos`.
    pub fn add_block(&mut self, block: Block) -> (r: Result<(), BtcError>)
        requires
            old(self).wf(),
            block@.wf(),
        ensures
            r == add_verdict(old(self)@, block@),
            r is Ok ==> final(self)@.blocks == old(self)@.blocks.push(block@),
            r is Ok ==> final(self)@.utxos == old(self)@.utxos,
            r is Ok ==> final(self)@.mempool == evict_mined(old(self)@.mempool, block@),
            r is Ok ==> final(self)@.target.len() == 32,
            r is Ok ==> nat_of(final(self)@.target) == retarget_value(
                old(self)@.blocks.push(block@),
                nat_of(old(self)@.target) as int,
            ),
            r is Ok ==> final(self).wf(),
            r is Err ==> final(self)@ == old(self)@,
    {
        let ghost c0 = self@;
        let ghost bv = block@;
        let n = self.blocks.len();
        if n == 0 {
            let z = crate::hash::Hash::zero();
            proof {
                assert(z@ =~= zero_hash());
            }
            if !block.header.prev_block_hash.equals(&z) {
                return Err(BtcError::InvalidBlock);
            }
        } else {
            let last_hash = self.blocks[n - 1].header.hash();
            proof {
                assert(c0.blocks.last() == self.blocks@[n - 1]@);
            }
            if !block.header.prev_block_hash.equals(&last_hash) {
                return Err(BtcError::InvalidBlock);
            }
            if !block.header.hash().matches_target(&block.header.target) {
                return Err(BtcError::InvalidBlock);
            }
            if block.transactions.len() == 0 {
                return Err(BtcError::InvalidTransaction);
            }
            let mr = crate::merkle::MerkleRoot::calculate(&block.transactions);
            if !mr.equals(&block.header.merkle_root) {
                return Err(BtcError::InvalidMerkleRoot);
            }
            if block.header.timestamp <= self.blocks[n - 1].header.timestamp {
                return Err(BtcError::InvalidBlock);
            }
            match block.verify_transactions(self.block_height(), &self.utxos) {
                Ok(_) => {},
                Err(e) => {
                    return Err(e);
                },
            }
        }
        // evict the block's transactions from the mempool
        proof {
            vstd::std_specs::vec::axiom_spec_len(&self.blocks);
            assert(add_verdict(c0, bv) is Ok);
            lemma_ok_unit(add_verdict(c0, bv));
        }
        let mut block_hashes: Vec<crate::hash::Hash> = Vec::new();
        let mut i: usize = 0;
        while i < block.transactions.len()
            invariant
                i <= block.transactions@.len(),
                self@ == c0,
                self.wf(),
                add_verdict(c0, bv) == Ok::<(), BtcError>(()),
                bv == block@,
                bv.txs == block.transactions@.map_values(|t: Transaction| t@),
                block_hashes@.len() == i,
                forall|j: int|
                    0 <= j < i ==> (#[trigger] block_hashes@[j])@ == tx_hash(bv.txs[j]),
            decreases block.transactions@.len() - i,
        {
            block_hashes.push(block.transactions[i].hash());
            i = i + 1;
        }
        let mut kept: Vec<MempoolEntry> = Vec::new();
        let mut k: usize = 0;
        let ghost m0 = self@.mempool;
        proof {
            assert(m0.take(0) =~= Seq::<MempoolEntryV>::empty());
            assert(evict_mined(Seq::<MempoolEntryV>::empty(), bv)
                == Seq::<MempoolEntryV>::empty());
            assert(kept@.map_values(|e: MempoolEntry| e@) =~= Seq::<MempoolEntryV>::empty());
        }
        while k < self.mempool.len()
            invariant
                k <= self.mempool@.len(),
                bv == block@,
                add_verdict(c0, bv) == Ok::<(), BtcError>(()),
                self.wf(),
                m0 == self@.mempool,
                self@ == c0,
                bv.txs == block.transactions@.map_values(|t: Transaction| t@),
                block_hashes@.len() == bv.txs.len(),
                forall|j: int|
                    0 <= j < bv.txs.len() ==> (#[trigger] block_hashes@[j])@ == tx_hash(bv.txs[j]),
                kept@.map_values(|e: MempoolEntry| e@) == evict_mined(m0.take(k as int), bv),
            decreases self.mempool@.len() - k,
        {
            let ghost ev = m0[k as int];
            let eh = self.mempool[k].transaction.hash();
            proof {
                lemma_evict_mined_snoc(m0.take(k as int), bv, ev);
                assert(m0.take(k + 1) =~= m0.take(k as int).push(ev));
                if exists|j: int|
                    0 <= j < block_hashes@.len() && (#[trigger] block_hashes@[j])@ == eh@ {
                    let j = choose|j: int|
                        0 <= j < block_hashes@.len() && (#[trigger] block_hashes@[j])@ == eh@;
                    assert(tx_hash(ev.tx) == tx_hash(bv.txs[j]));
                    assert(in_block(bv, ev));
                }
                if in_block(bv, ev) {
                    let j = choose|j: int|
                        0 <= j < bv.txs.len() && tx_hash(ev.tx) == tx_hash(#[trigger] bv.txs[j]);
                    assert((block_hashes@[j])@ == eh@);
                }
            }
            if !crate::types::block::contains_hash(&block_hashes, &eh) {
                kept.push(self.mempool[k].clone());
                proof {
                    assert(kept@.map_values(|e: MempoolEntry| e@) =~= evict_mined(
                        m0.take(k as int),
                        bv,
                    ) + seq![ev]);
                }
            } else {
                proof {
                    assert(kept@.map_values(|e: MempoolEntry| e@) =~= evict_mined(
                        m0.take(k as int),
                        bv,
                    ) + Seq::<MempoolEntryV>::empty());
                }
            }
            k = k + 1;
        }
        proof {
            assert(m0.take(m0.len() as int) =~= m0);
        }
        self.mempool = kept;
        self.blocks.push(block);
        proof {
            assert(self@.blocks =~= c0.blocks.push(bv));
            assert(self@.utxos == c0.utxos);
            assert(self@.mempool == evict_mined(m0, bv));
            lemma_evict_mined_props(m0, bv);
            assert forall|i2: int| 0 <= i2 < self@.blocks.len() implies (
            #[trigger] self@.blocks[i2]).wf() by {
                if i2 < c0.blocks.len() {
                    assert(self@.blocks[i2] == c0.blocks[i2]);
                }
            }
            assert(chain_linked(self@.blocks)) by {
                assert forall|i2: int| 1 <= i2 < self@.blocks.len() implies (
                #[trigger] self@.blocks[i2]).header.prev == header_hash(
                    self@.blocks[i2 - 1].header,
                ) by {
                    if i2 < c0.blocks.len() {
                        assert(self@.blocks[i2] == c0.blocks[i2]);
                        assert(self@.blocks[i2 - 1] == c0.blocks[i2 - 1]);
                    } else {
                        assert(self@.blocks[i2] == bv);
                        assert(self@.blocks[i2 - 1] == c0.blocks.last());
                    }
                }
            }
            assert(times_increasing(self@.blocks)) by {
                assert forall|i2: int| 1 <= i2 < self@.blocks.len() implies self@.blocks[i2
                    - 1].header.timestamp < (#[trigger] self@.blocks[i2]).header.timestamp by {
                    if i2 < c0.blocks.len() {
                        assert(self@.blocks[i2] == c0.blocks[i2]);
                        assert(self@.blocks[i2 - 1] == c0.blocks[i2 - 1]);
                    } else {
                        assert(self@.blocks[i2] == bv);
                        assert(self@.blocks[i2 - 1] == c0.blocks.last());
                    }
                }
            }
            assert(pow_ok(self@.blocks)) by {
                assert forall|i2: int| 1 <= i2 < self@.blocks.len() implies nat_of(
                    header_hash((#[trigger] self@.blocks[i2]).header),
                ) <= nat_of(self@.blocks[i2].header.target) by {
                    if i2 < c0.blocks.len() {
                        assert(self@.blocks[i2] == c0.blocks[i2]);
                    } else {
                        assert(self@.blocks[i2] == bv);
                    }
                }
            }
            assert(merkle_ok(self@.blocks)) by {
                assert forall|i2: int| 1 <= i2 < self@.blocks.len() implies (
                #[trigger] self@.blocks[i2]).header.merkle_root == merkle_root_of(
                    self@.blocks[i2].txs,
                ) by {
                    if i2 < c0.blocks.len() {
                        assert(self@.blocks[i2] == c0.blocks[i2]);
                    } else {
                        assert(self@.blocks[i2] == bv);
                    }
                }
            }
            assert(self.wf());
        }
        self.try_adjust_target();
        Ok(())
    }
}

/// Whether a transaction has an output hashing to the given key.
pub open spec fn tx_has_output_hash(t: TxV, h: Seq<u8>) -> bool {
    exists|i: int|
        0 <= i < t.outputs.len() && crate::types::transaction::out_hash(#[trigger] t.outputs[i])
            == h
}

/// The first mempool entry with an output hashing to the given key, or -1.
pub open spec fn find_producer(m: Seq<MempoolEntryV>, h: Seq<u8>) -> int
    decreases m.len(),
{
    if m.len() == 0 {
        -1
    } else if tx_has_output_hash(m.first().tx, h) {
        0
    } else {
        let r = find_producer(m.drop_first(), h);
        if r < 0 {
            -1
        } else {
            r + 1
        }
    }
}

/// What `find_producer` says about indices: it is the first match.
pub proof fn lemma_find_producer(m: Seq<MempoolEntryV>, h: Seq<u8>)
    ensures
        find_producer(m, h) >= 0 ==> 0 <= find_producer(m, h) < m.len() && tx_has_output_hash(
            m[find_producer(m, h)].tx,
            h,
        ),
        find_producer(m, h) < 0 ==> forall|i: int|
            0 <= i < m.len() ==> !tx_has_output_hash((#[trigger] m[i]).tx, h),
        forall|i: int|
            0 <= i < find_producer(m, h) ==> !tx_has_output_hash((#[trigger] m[i]).tx, h),
    decreases m.len(),
{
    if m.len() > 0 {
        lemma_find_producer(m.drop_first(), h);
        if !tx_has_output_hash(m.first().tx, h) {
            assert forall|i: int| 1 <= i < m.len() implies m[i] == m.drop_first()[i - 1] by {}
        }
    }
}

/// Clearing the reservation mark of each listed input's output, in order.
pub open spec fn unmark_inputs(u: Seq<UtxoEntryV>, ins: Seq<TxInV>) -> Seq<UtxoEntryV>
    decreases ins.len(),
{
    if ins.len() == 0 {
        u
    } else {
        unmark_inputs(spec_set_marked(u, ins.first().prev, false), ins.drop_first())
    }
}

/// Setting the reservation mark of each listed input's output, in order.
pub open spec fn mark_inputs(u: Seq<UtxoEntryV>, ins: Seq<TxInV>) -> Seq<UtxoEntryV>
    decreases ins.len(),
{
    if ins.len() == 0 {
        u
    } else {
        mark_inputs(spec_set_marked(u, ins.first().prev, true), ins.drop_first())
    }
}

/// Left folds consume an appended element last: unmarking.
pub proof fn lemma_unmark_inputs_snoc(u: Seq<UtxoEntryV>, s: Seq<TxInV>, e: TxInV)
    ensures
        unmark_inputs(u, s.push(e)) == spec_set_marked(unmark_inputs(u, s), e.prev, false),
    decreases s.len(),
{
    if s.len() == 0 {
        assert(s.push(e).first() == e);
        assert(s.push(e).drop_first() =~= Seq::<TxInV>::empty());
        assert(unmark_inputs(spec_set_marked(u, e.prev, false), Seq::<TxInV>::empty())
            == spec_set_marked(u, e.prev, false));
        assert(unmark_inputs(u, s) == u);
    } else {
        assert(s.push(e).first() == s.first());
        assert(s.push(e).drop_first() =~= s.drop_first().push(e));
        lemma_unmark_inputs_snoc(spec_set_marked(u, s.first().prev, false), s.drop_first(), e);
    }
}

/// Left folds consume an appended element last: marking.
pub proof fn lemma_mark_inputs_snoc(u: Seq<UtxoEntryV>, s: Seq<TxInV>, e: TxInV)
    ensures
        mark_inputs(u, s.push(e)) == spec_set_marked(mark_inputs(u, s), e.prev, true),
    decreases s.len(),
{
    if s.len() == 0 {
        assert(s.push(e).first() == e);
        assert(s.push(e).drop_first() =~= Seq::<TxInV>::empty());
        assert(mark_inputs(spec_set_marked(u, e.prev, true), Seq::<TxInV>::empty())
            == spec_set_marked(u, e.prev, true));
        assert(mark_inputs(u, s) == u);
    } else {
        assert(s.push(e).first() == s.first());
        assert(s.push(e).drop_first() =~= s.drop_first().push(e));
        lemma_mark_inputs_snoc(spec_set_marked(u, s.first().prev, true), s.drop_first(), e);
    }
}

/// Unmarking changes no keys, no stored outputs and keeps well-formedness.
pub proof fn lemma_unmark_inputs_wf(u: Seq<UtxoEntryV>, s: Seq<TxInV>)
    requires
        wf_utxo_seq(u),
    ensures
        wf_utxo_seq(unmark_inputs(u, s)),
        forall|k: Seq<u8>| #[trigger] has_key(unmark_inputs(u, s), k) <==> has_key(u, k),
        forall|k: Seq<u8>|
            has_key(u, k) ==> #[trigger] entry_of(unmark_inputs(u, s), k).output == entry_of(
                u,
                k,
            ).output,
    decreases s.len(),
{
    if s.len() > 0 {
        crate::types::utxo::lemma_set_marked_wf(u, s.first().prev, false);
        lemma_unmark_inputs_wf(spec_set_marked(u, s.first().prev, false), s.drop_first());
    }
}

/// Marking changes no keys, no stored outputs and keeps well-formedness.
pub proof fn lemma_mark_inputs_wf(u: Seq<UtxoEntryV>, s: Seq<TxInV>)
    requires
        wf_utxo_seq(u),
    ensures
        wf_utxo_seq(mark_inputs(u, s)),
        forall|k: Seq<u8>| #[trigger] has_key(mark_inputs(u, s), k) <==> has_key(u, k),
        forall|k: Seq<u8>|
            has_key(u, k) ==> #[trigger] entry_of(mark_inputs(u, s), k).output == entry_of(
                u,
                k,
            ).output,
    decreases s.len(),
{
    if s.len() > 0 {
        crate::types::utxo::lemma_set_marked_wf(u, s.first().prev, true);
        lemma_mark_inputs_wf(spec_set_marked(u, s.first().prev, true), s.drop_first());
    }
}

/// One step of mempool conflict resolution for one input: if its output is
/// reserved, the mempool transaction producing that output gives up all of
/// its reservations and leaves the pool; if no producer is found, only the
/// contested output is released.
pub open spec fn resolve_one(
    u: Seq<UtxoEntryV>,
    m: Seq<MempoolEntryV>,
    inp: TxInV,
) -> (Seq<UtxoEntryV>, Seq<MempoolEntryV>) {
    if has_key(u, inp.prev) && entry_of(u, inp.prev).marked {
        let idx = find_producer(m, inp.prev);
        if idx >= 0 {
            (unmark_inputs(u, m[idx].tx.inputs), m.remove(idx))
        } else {
            (spec_set_marked(u, inp.prev, false), m)
        }
    } else {
        (u, m)
    }
}

/// Conflict resolution over all inputs, in order.
pub open spec fn resolve_all(
    u: Seq<UtxoEntryV>,
    m: Seq<MempoolEntryV>,
    ins: Seq<TxInV>,
) -> (Seq<UtxoEntryV>, Seq<MempoolEntryV>)
    decreases ins.len(),
{
    if ins.len() == 0 {
        (u, m)
    } else {
        let step = resolve_one(u, m, ins.first());
        resolve_all(step.0, step.1, ins.drop_first())
    }
}

/// Left folds consume an appended element last: resolution.
pub proof fn lemma_resolve_all_snoc(
    u: Seq<UtxoEntryV>,
    m: Seq<MempoolEntryV>,
    s: Seq<TxInV>,
    e: TxInV,
)
    ensures
        resolve_all(u, m, s.push(e)) == resolve_one(
            resolve_all(u, m, s).0,
            resolve_all(u, m, s).1,
            e,
        ),
    decreases s.len(),
{
    if s.len() == 0 {
        assert(s.push(e).first() == e);
        assert(s.push(e).drop_first() =~= Seq::<TxInV>::empty());
        let step = resolve_one(u, m, e);
        assert(resolve_all(step.0, step.1, Seq::<TxInV>::empty()) == step);
        assert(resolve_all(u, m, s) == (u, m));
    } else {
        assert(s.push(e).first() == s.first());
        assert(s.push(e).drop_first() =~= s.drop_first().push(e));
        let step = resolve_one(u, m, s.first());
        lemma_resolve_all_snoc(step.0, step.1, s.drop_first(), e);
    }
}

/// Removing one entry keeps a mempool sorted and well formed.
pub proof fn lemma_mempool_remove(m: Seq<MempoolEntryV>, idx: int)
    requires
        0 <= idx < m.len(),
        mempool_sorted(m),
        forall|i: int| 0 <= i < m.len() ==> (#[trigger] m[i]).tx.wf(),
    ensures
        mempool_sorted(m.remove(idx)),
        forall|i: int| 0 <= i < m.remove(idx).len() ==> (#[trigger] m.remove(idx)[i]).tx.wf(),
{
    let t = m.remove(idx);
    assert forall|i: int, j: int| 0 <= i < j < t.len() implies (#[trigger] t[i]).fee >= (
    #[trigger] t[j]).fee by {
        let si = if i < idx {
            i
        } else {
            i + 1
        };
        let sj = if j < idx {
            j
        } else {
            j + 1
        };
        assert(t[i] == m[si]);
        assert(t[j] == m[sj]);
    }
    assert forall|i: int| 0 <= i < t.len() implies (#[trigger] t[i]).tx.wf() by {
        if i < idx {
            assert(t[i] == m[i]);
        } else {
            assert(t[i] == m[i + 1]);
        }
    }
}

/// Resolution keeps UTXO keys and stored outputs, and keeps the mempool
/// sorted and well formed.
pub proof fn lemma_resolve_all_wf(u: Seq<UtxoEntryV>, m: Seq<MempoolEntryV>, s: Seq<TxInV>)
    requires
        wf_utxo_seq(u),
        mempool_sorted(m),
        forall|i: int| 0 <= i < m.len() ==> (#[trigger] m[i]).tx.wf(),
    ensures
        wf_utxo_seq(resolve_all(u, m, s).0),
        mempool_sorted(resolve_all(u, m, s).1),
        forall|i: int|
            0 <= i < resolve_all(u, m, s).1.len() ==> (#[trigger] resolve_all(
                u,
                m,
                s,
            ).1[i]).tx.wf(),
        forall|k: Seq<u8>| #[trigger] has_key(resolve_all(u, m, s).0, k) <==> has_key(u, k),
        forall|k: Seq<u8>|
            has_key(u, k) ==> #[trigger] entry_of(resolve_all(u, m, s).0, k).output == entry_of(
                u,
                k,
            ).output,
    decreases s.len(),
{
    if s.len() > 0 {
        let step = resolve_one(u, m, s.first());
        if has_key(u, s.first().prev) && entry_of(u, s.first().prev).marked {
            let idx = find_producer(m, s.first().prev);
            lemma_find_producer(m, s.first().prev);
            if idx >= 0 {
                lemma_unmark_inputs_wf(u, m[idx].tx.inputs);
                lemma_mempool_remove(m, idx);
            } else {
                crate::types::utxo::lemma_set_marked_wf(u, s.first().prev, false);
            }
        }
        lemma_resolve_all_wf(step.0, step.1, s.drop_first());
    }
}

/// The position at which an entry with the given fee is inserted: after
/// every entry with an equal or higher fee.
pub open spec fn insert_pos(m: Seq<MempoolEntryV>, fee: u64) -> int
    decreases m.len(),
{
    if m.len() == 0 {
        0
    } else if m.first().fee < fee {
        0
    } else {
        1 + insert_pos(m.drop_first(), fee)
    }
}

/// What `insert_pos` says about indices.
pub proof fn lemma_insert_pos(m: Seq<MempoolEntryV>, fee: u64)
    ensures
        0 <= insert_pos(m, fee) <= m.len(),
        forall|i: int| 0 <= i < insert_pos(m, fee) ==> (#[trigger] m[i]).fee >= fee,
        insert_pos(m, fee) < m.len() ==> m[insert_pos(m, fee)].fee < fee,
    decreases m.len(),
{
    if m.len() > 0 {
        lemma_insert_pos(m.drop_first(), fee);
        if m.first().fee >= fee {
            assert forall|i: int| 1 <= i < insert_pos(m, fee) implies m[i]
                == m.drop_first()[i - 1] by {}
        }
    }
}

/// A new entry placed at its position: the mempool stays sorted.
pub open spec fn insert_sorted(m: Seq<MempoolEntryV>, e: MempoolEntryV) -> Seq<MempoolEntryV> {
    m.insert(insert_pos(m, e.fee), e)
}

/// The outcome of mempool admission at a time. All validation comes
/// first: every input must consume a distinct, present output, and the
/// consumed value must fit the 64-bit range and cover the created value;
/// any failure rejects with nothing changed. Only an accepted transaction
/// resolves reservation conflicts, reserves its inputs and enters the
/// pool by descending fee.
pub open spec fn admit_at(c: ChainV, t: TxV, now: i64) -> (ChainV, Result<(), BtcError>) {
    let isum = in_values_sum(t.inputs, c.utxos);
    let osum = out_values_sum(t.outputs);
    if !(all_present(t.inputs, c.utxos) && distinct_prevs(t.inputs) && isum <= u64::MAX && osum
        <= isum) {
        (c, Err(BtcError::InvalidTransaction))
    } else {
        let resolved = resolve_all(c.utxos, c.mempool, t.inputs);
        let u2 = mark_inputs(resolved.0, t.inputs);
        let entry = MempoolEntryV { timestamp: now, fee: (isum - osum) as u64, tx: t };
        (ChainV { utxos: u2, mempool: insert_sorted(resolved.1, entry), ..c }, Ok(()))
    }
}

/// Whether a transaction carries an output hashing to the given key.
pub fn has_output_hash(t: &Transaction, h: &crate::hash::Hash) -> (r: bool)
    ensures
        r == tx_has_output_hash(t@, h@),
{
    let mut i: usize = 0;
    while i < t.outputs.len()
        invariant
            i <= t.outputs@.len(),
            t@.outputs == t.outputs@.map_values(
                |x: crate::types::transaction::TransactionOutput| x@,
            ),
            forall|j: int|
                0 <= j < i ==> crate::types::transaction::out_hash(#[trigger] t@.outputs[j]) != h@,
        decreases t.outputs@.len() - i,
    {
        let oh = t.outputs[i].hash();
        if oh.equals(h) {
            proof {
                assert(crate::types::transaction::out_hash(t@.outputs[i as int]) == h@);
            }
            return true;
        }
        i = i + 1;
    }
    false
}

impl Blockchain {
    /// The first mempool position whose transaction produces the given
    /// output hash.
    fn find_producer_index(&self, h: &crate::hash::Hash) -> (r: Option<usize>)
        ensures
            match r {
                Some(i) => i == find_producer(self@.mempool, h@) && i < self@.mempool.len(),
                None => find_producer(self@.mempool, h@) < 0,
            },
    {
        let mut i: usize = 0;
        while i < self.mempool.len()
            invariant
                i <= self@.mempool.len(),
                self@.mempool.len() == self.mempool@.len(),
                forall|j: int|
                    0 <= j < i ==> !tx_has_output_hash((#[trigger] self@.mempool[j]).tx, h@),
            decreases self@.mempool.len() - i,
        {
            if has_output_hash(&self.mempool[i].transaction, h) {
                proof {
                    lemma_find_producer_at(self@.mempool, h@, i as int);
                }
                return Some(i);
            }
            i = i + 1;
        }
        proof {
            lemma_find_producer(self@.mempool, h@);
        }
        None
    }

    /// Admits a transaction to the mempool at the given time: every input
    /// must consume a distinct, present output, and the consumed value
    /// must cover the created value; a rejection changes nothing. On
    /// success, reserved outputs are wrestled from their prior mempool
    /// claimant, the inputs are reserved and the entry is placed by
    /// descending fee.
    pub fn add_to_mempool_at(&mut self, transaction: Transaction, now: i64) -> (r: Result<
        (),
        BtcError,
    >)
        requires
            old(self).wf(),
            transaction@.wf(),
        ensures
            final(self)@ == admit_at(old(self)@, transaction@, now).0,
            r == admit_at(old(self)@, transaction@, now).1,
            r is Err ==> final(self)@ == old(self)@,
            final(self).wf(),
    {
        let ghost c0 = self@;
        let ghost tv = transaction@;
        // validation: every input present, no duplicates
        let mut seen: Vec<crate::hash::Hash> = Vec::new();
        let mut i: usize = 0;
        proof {
            assert(tv.inputs.take(0) =~= Seq::<TxInV>::empty());
        }
        while i < transaction.inputs.len()
            invariant
                i <= transaction.inputs@.len(),
                self@ == c0,
                c0 == old(self)@,
                self.wf(),
                tv == transaction@,
                tv.inputs == transaction.inputs@.map_values(
                    |x: crate::types::transaction::TransactionInput| x@,
                ),
                all_present(tv.inputs.take(i as int), c0.utxos),
                distinct_prevs(tv.inputs.take(i as int)),
                seen@.len() == i,
                forall|j: int| 0 <= j < i ==> (#[trigger] seen@[j])@ == tv.inputs[j].prev,
            decreases transaction.inputs@.len() - i,
        {
            let input = &transaction.inputs[i];
            if !self.utxos.contains(&input.prev_transaction_output_hash) {
                proof {
                    assert(!has_key(c0.utxos, (tv.inputs[i as int]).prev));
                    assert(!all_present(tv.inputs, c0.utxos));
                }
                return Err(BtcError::InvalidTransaction);
            }
            if crate::types::block::contains_hash(&seen, &input.prev_transaction_output_hash) {
                proof {
                    let j = choose|j: int|
                        0 <= j < seen@.len() && (#[trigger] seen@[j])@
                            == input.prev_transaction_output_hash@;
                    assert(tv.inputs[j].prev == tv.inputs[i as int].prev);
                    assert(!distinct_prevs(tv.inputs));
                }
                return Err(BtcError::InvalidTransaction);
            }
            seen.push(input.prev_transaction_output_hash.clone());
            proof {
                let pre = tv.inputs.take(i as int);
                assert(tv.inputs.take(i + 1) =~= pre.push(tv.inputs[i as int]));
                assert(all_present(tv.inputs.take(i + 1), c0.utxos)) by {
                    assert forall|a: int| 0 <= a < i + 1 implies has_key(
                        c0.utxos,
                        (#[trigger] tv.inputs.take(i + 1)[a]).prev,
                    ) by {
                        if a < i {
                            assert(tv.inputs.take(i + 1)[a] == pre[a]);
                        }
                    }
                }
                assert(distinct_prevs(tv.inputs.take(i + 1))) by {
                    assert forall|a: int, b: int| 0 <= a < b < i + 1 implies (
                    #[trigger] tv.inputs.take(i + 1)[a]).prev != (#[trigger] tv.inputs.take(
                        i + 1,
                    )[b]).prev by {
                        if b < i {
                            assert(tv.inputs.take(i + 1)[a] == pre[a]);
                            assert(tv.inputs.take(i + 1)[b] == pre[b]);
                        } else {
                            assert(seen@[a]@ == tv.inputs[a].prev);
                        }
                    }
                }
            }
            i = i + 1;
        }
        proof {
            assert(tv.inputs.take(tv.inputs.len() as int) =~= tv.inputs);
            assert(all_present(tv.inputs, c0.utxos) && distinct_prevs(tv.inputs));
        }
        // value check
        let mut in_acc: u128 = 0;
        let mut j: usize = 0;
        proof {
            assert(tv.inputs.take(0) =~= Seq::<TxInV>::empty());
        }
        while j < transaction.inputs.len()
            invariant
                j <= transaction.inputs@.len(),
                tv == transaction@,
                c0 == old(self)@,
                chain_wf(c0),
                tv.inputs == transaction.inputs@.map_values(
                    |x: crate::types::transaction::TransactionInput| x@,
                ),
                all_present(tv.inputs, c0.utxos),
                distinct_prevs(tv.inputs),
                self@ == c0,
                in_acc == in_values_sum(tv.inputs.take(j as int), c0.utxos),
                in_acc <= j * 0xFFFF_FFFF_FFFF_FFFFu128,
            decreases transaction.inputs@.len() - j,
        {
            let input = &transaction.inputs[j];
            let entry = match self.utxos.get(&input.prev_transaction_output_hash) {
                Some(e) => e,
                None => {
                    proof {
                        assert(has_key(c0.utxos, tv.inputs[j as int].prev));
                        assert(false);
                    }
                    return Err(BtcError::InvalidTransaction);
                },
            };
            proof {
                lemma_in_sum_snoc(tv.inputs.take(j as int), tv.inputs[j as int], c0.utxos);
                assert(tv.inputs.take(j + 1) =~= tv.inputs.take(j as int).push(
                    tv.inputs[j as int],
                ));
                assert((j + 1) * 0xFFFF_FFFF_FFFF_FFFFu128 == j * 0xFFFF_FFFF_FFFF_FFFFu128
                    + 0xFFFF_FFFF_FFFF_FFFFu128) by (nonlinear_arith);
                vstd::std_specs::vec::axiom_spec_len(&transaction.inputs);
                assert(j * 0xFFFF_FFFF_FFFF_FFFFu128 <= 0xFFFF_FFFF_FFFF_FFFFu128
                    * 0xFFFF_FFFF_FFFF_FFFFu128) by (nonlinear_arith)
                    requires
                        j <= 0xFFFF_FFFF_FFFF_FFFFu128,
                ;
            }
            in_acc = in_acc + (entry.output.value as u128);
            j = j + 1;
        }
        let mut out_acc: u128 = 0;
        let mut j2: usize = 0;
        proof {
            assert(tv.inputs.take(tv.inputs.len() as int) =~= tv.inputs);
            assert(tv.outputs.take(0) =~= Seq::<crate::types::transaction::TxOutV>::empty());
        }
        while j2 < transaction.outputs.len()
            invariant
                j2 <= transaction.outputs@.len(),
                tv == transaction@,
                c0 == old(self)@,
                chain_wf(c0),
                tv.outputs == transaction.outputs@.map_values(
                    |x: crate::types::transaction::TransactionOutput| x@,
                ),
                all_present(tv.inputs, c0.utxos),
                distinct_prevs(tv.inputs),
                self@ == c0,
                in_acc == in_values_sum(tv.inputs, c0.utxos),
                out_acc == out_values_sum(tv.outputs.take(j2 as int)),
                out_acc <= j2 * 0xFFFF_FFFF_FFFF_FFFFu128,
            decreases transaction.outputs@.len() - j2,
        {
            proof {
                lemma_out_sum_snoc(tv.outputs.take(j2 as int), tv.outputs[j2 as int]);
                assert(tv.outputs.take(j2 + 1) =~= tv.outputs.take(j2 as int).push(
                    tv.outputs[j2 as int],
                ));
                assert((j2 + 1) * 0xFFFF_FFFF_FFFF_FFFFu128 == j2 * 0xFFFF_FFFF_FFFF_FFFFu128
                    + 0xFFFF_FFFF_FFFF_FFFFu128) by (nonlinear_arith);
                vstd::std_specs::vec::axiom_spec_len(&transaction.outputs);
                assert(j2 * 0xFFFF_FFFF_FFFF_FFFFu128 <= 0xFFFF_FFFF_FFFF_FFFFu128
                    * 0xFFFF_FFFF_FFFF_FFFFu128) by (nonlinear_arith)
                    requires
                        j2 <= 0xFFFF_FFFF_FFFF_FFFFu128,
                ;
            }
            out_acc = out_acc + (transaction.outputs[j2].value as u128);
            j2 = j2 + 1;
        }
        proof {
            assert(tv.outputs.take(tv.outputs.len() as int) =~= tv.outputs);
        }
        if in_acc > 0xFFFF_FFFF_FFFF_FFFFu128 || out_acc > in_acc {
            return Err(BtcError::InvalidTransaction);
        }
        let fee: u64 = (in_acc - out_acc) as u64;
        // conflict resolution
        let mut i2: usize = 0;
        proof {
            assert(tv.inputs.take(0) =~= Seq::<TxInV>::empty());
        }
        while i2 < transaction.inputs.len()
            invariant
                i2 <= transaction.inputs@.len(),
                tv == transaction@,
                tv.inputs == transaction.inputs@.map_values(
                    |x: crate::types::transaction::TransactionInput| x@,
                ),
                all_present(tv.inputs, c0.utxos),
                distinct_prevs(tv.inputs),
                in_values_sum(tv.inputs, c0.utxos) <= u64::MAX,
                out_values_sum(tv.outputs) <= in_values_sum(tv.inputs, c0.utxos),
                fee == in_values_sum(tv.inputs, c0.utxos) - out_values_sum(tv.outputs),
                chain_wf(c0),
                c0 == old(self)@,
                self@.blocks == c0.blocks,
                self@.target == c0.target,
                (self@.utxos, self@.mempool) == resolve_all(
                    c0.utxos,
                    c0.mempool,
                    tv.inputs.take(i2 as int),
                ),
                wf_utxo_seq(self@.utxos),
                mempool_sorted(self@.mempool),
                forall|k: int|
                    0 <= k < self@.mempool.len() ==> (#[trigger] self@.mempool[k]).tx.wf(),
                forall|k: Seq<u8>| #[trigger] has_key(self@.utxos, k) <==> has_key(c0.utxos, k),
                forall|k: Seq<u8>|
                    has_key(c0.utxos, k) ==> #[trigger] entry_of(self@.utxos, k).output
                        == entry_of(c0.utxos, k).output,
            decreases transaction.inputs@.len() - i2,
        {
            let ghost u_pre = self@.utxos;
            let ghost m_pre = self@.mempool;
            let input_hash = transaction.inputs[i2].prev_transaction_output_hash.clone();
            let ghost inpv = tv.inputs[i2 as int];
            let is_marked = match self.utxos.get(&input_hash) {
                Some(e) => e.marked,
                None => false,
            };
            if is_marked {
                match self.find_producer_index(&input_hash) {
                    Some(idx) => {
                        let producer = self.mempool[idx].transaction.clone();
                        let ghost prod_ins = self@.mempool[idx as int].tx.inputs;
                        let mut k: usize = 0;
                        proof {
                            lemma_find_producer(m_pre, inpv.prev);
                            assert(prod_ins.take(0) =~= Seq::<TxInV>::empty());
                        }
                        while k < producer.inputs.len()
                            invariant
                                k <= producer.inputs@.len(),
                                c0 == old(self)@,
                                chain_wf(c0),
                                tv == transaction@,
                                all_present(tv.inputs, c0.utxos),
                                distinct_prevs(tv.inputs),
                                in_values_sum(tv.inputs, c0.utxos) <= u64::MAX,
                                out_values_sum(tv.outputs) <= in_values_sum(
                                    tv.inputs,
                                    c0.utxos,
                                ),
                                fee == in_values_sum(tv.inputs, c0.utxos) - out_values_sum(
                                    tv.outputs,
                                ),
                                (u_pre, m_pre) == resolve_all(
                                    c0.utxos,
                                    c0.mempool,
                                    tv.inputs.take(i2 as int),
                                ),
                                0 <= idx < m_pre.len(),
                                idx == find_producer(m_pre, inpv.prev),
                                inpv == tv.inputs[i2 as int],
                                i2 < tv.inputs.len(),
                                has_key(u_pre, inpv.prev) && entry_of(u_pre, inpv.prev).marked,
                                prod_ins == m_pre[idx as int].tx.inputs,
                                prod_ins == producer@.inputs,
                                producer@.inputs == producer.inputs@.map_values(
                                    |x: crate::types::transaction::TransactionInput| x@,
                                ),
                                self@.blocks == c0.blocks,
                                self@.target == c0.target,
                                self@.mempool == m_pre,
                                self@.utxos == unmark_inputs(u_pre, prod_ins.take(k as int)),
                            decreases producer.inputs@.len() - k,
                        {
                            let ph = producer.inputs[k].prev_transaction_output_hash.clone();
                            proof {
                                lemma_unmark_inputs_snoc(
                                    u_pre,
                                    prod_ins.take(k as int),
                                    prod_ins[k as int],
                                );
                                assert(prod_ins.take(k + 1) =~= prod_ins.take(k as int).push(
                                    prod_ins[k as int],
                                ));
                            }
                            self.utxos.set_marked(&ph, false);
                            k = k + 1;
                        }
                        proof {
                            assert(prod_ins.take(prod_ins.len() as int) =~= prod_ins);
                        }
                        self.mempool.remove(idx);
                        proof {
                            assert(self@.mempool =~= m_pre.remove(idx as int));
                        }
                    },
                    None => {
                        self.utxos.set_marked(&input_hash, false);
                    },
                }
            }
            proof {
                lemma_resolve_all_snoc(c0.utxos, c0.mempool, tv.inputs.take(i2 as int), inpv);
                assert(tv.inputs.take(i2 + 1) =~= tv.inputs.take(i2 as int).push(inpv));
                assert((self@.utxos, self@.mempool) == resolve_one(u_pre, m_pre, inpv));
                lemma_resolve_all_wf(c0.utxos, c0.mempool, tv.inputs.take(i2 + 1));
            }
            i2 = i2 + 1;
        }
        proof {
            assert(tv.inputs.take(tv.inputs.len() as int) =~= tv.inputs);
        }
        let ghost u1 = self@.utxos;
        let ghost m1 = self@.mempool;
        // reserve the inputs
        let mut j3: usize = 0;
        proof {
            assert(tv.inputs.take(0) =~= Seq::<TxInV>::empty());
        }
        while j3 < transaction.inputs.len()
            invariant
                j3 <= transaction.inputs@.len(),
                tv == transaction@,
                c0 == old(self)@,
                chain_wf(c0),
                all_present(tv.inputs, c0.utxos),
                distinct_prevs(tv.inputs),
                (u1, m1) == resolve_all(c0.utxos, c0.mempool, tv.inputs),
                in_values_sum(tv.inputs, c0.utxos) <= u64::MAX,
                out_values_sum(tv.outputs) <= in_values_sum(tv.inputs, c0.utxos),
                fee == in_values_sum(tv.inputs, c0.utxos) - out_values_sum(tv.outputs),
                tv.inputs == transaction.inputs@.map_values(
                    |x: crate::types::transaction::TransactionInput| x@,
                ),
                self@.blocks == c0.blocks,
                self@.target == c0.target,
                self@.mempool == m1,
                self@.utxos == mark_inputs(u1, tv.inputs.take(j3 as int)),
            decreases transaction.inputs@.len() - j3,
        {
            let h = transaction.inputs[j3].prev_transaction_output_hash.clone();
            proof {
                lemma_mark_inputs_snoc(u1, tv.inputs.take(j3 as int), tv.inputs[j3 as int]);
                assert(tv.inputs.take(j3 + 1) =~= tv.inputs.take(j3 as int).push(
                    tv.inputs[j3 as int],
                ));
            }
            self.utxos.set_marked(&h, true);
            j3 = j3 + 1;
        }
        proof {
            assert(tv.inputs.take(tv.inputs.len() as int) =~= tv.inputs);
        }
        // place the entry by descending fee
        let mut pos: usize = 0;
        proof {
            lemma_insert_pos(m1, fee);
        }
        while pos < self.mempool.len() && self.mempool[pos].fee >= fee
            invariant
                pos <= self.mempool@.len(),
                c0 == old(self)@,
                chain_wf(c0),
                tv == transaction@,
                all_present(tv.inputs, c0.utxos),
                distinct_prevs(tv.inputs),
                (u1, m1) == resolve_all(c0.utxos, c0.mempool, tv.inputs),
                in_values_sum(tv.inputs, c0.utxos) <= u64::MAX,
                out_values_sum(tv.outputs) <= in_values_sum(tv.inputs, c0.utxos),
                fee == in_values_sum(tv.inputs, c0.utxos) - out_values_sum(tv.outputs),
                self@.blocks == c0.blocks,
                self@.target == c0.target,
                self@.utxos == mark_inputs(u1, tv.inputs),
                self@.mempool == m1,
                m1.len() == self.mempool@.len(),
                forall|a: int| 0 <= a < pos ==> (#[trigger] m1[a]).fee >= fee,
            decreases self.mempool@.len() - pos,
        {
            pos = pos + 1;
        }
        proof {
            lemma_insert_pos_at(m1, fee, pos as int);
        }
        let entry = MempoolEntry { timestamp: now, fee, transaction };
        self.mempool.insert(pos, entry);
        proof {
            assert(self@.mempool =~= insert_sorted(
                m1,
                MempoolEntryV { timestamp: now, fee, tx: tv },
            ));
            lemma_resolve_all_wf(c0.utxos, c0.mempool, tv.inputs);
            lemma_mark_inputs_wf(u1, tv.inputs);
            lemma_insert_pos(m1, fee);
            assert(mempool_sorted(self@.mempool)) by {
                assert forall|a: int, b: int| 0 <= a < b < self@.mempool.len() implies (
                #[trigger] self@.mempool[a]).fee >= (#[trigger] self@.mempool[b]).fee by {
                    let p = insert_pos(m1, fee);
                    if a < p && b == p {
                    } else if a == p && b > p {
                        assert(self@.mempool[b] == m1[b - 1]);
                    } else if a < p && b > p {
                        assert(self@.mempool[a] == m1[a]);
                        assert(self@.mempool[b] == m1[b - 1]);
                    } else if b < p {
                        assert(self@.mempool[a] == m1[a]);
                        assert(self@.mempool[b] == m1[b]);
                    } else if a > p {
                        assert(self@.mempool[a] == m1[a - 1]);
                        assert(self@.mempool[b] == m1[b - 1]);
                    }
                }
            }
        }
        Ok(())
    }
}

/// Adjacent descending fees order the whole mempool.
proof fn lemma_adjacent_sorted(m: Seq<MempoolEntryV>, i: int, j: int)
    requires
        forall|x: int| 1 <= x < m.len() ==> (#[trigger] m[x]).fee <= m[x - 1].fee,
        0 <= i < j < m.len(),
    ensures
        m[i].fee >= m[j].fee,
    decreases j - i,
{
    if j > i + 1 {
        lemma_adjacent_sorted(m, i, j - 1);
    }
}

impl Blockchain {
    /// Checks every well-formedness conjunct at run time: the guard a
    /// caller needs before trusting a ledger read back from disk.
    pub fn check_well_formed(&self) -> (r: bool)
        ensures
            r == self.wf(),
    {
        let ghost c = self@;
        // target: 32 bytes, no easier than the minimum
        if self.target.as_be_bytes().len() != 32 {
            return false;
        }
        let mt = U256::min_target();
        if !self.target.le(&mt) {
            return false;
        }
        // UTXO keys: 32 bytes each, pairwise distinct
        let un = self.utxos.len();
        let mut i: usize = 0;
        while i < un
            invariant
                i <= un,
                un == c.utxos.len(),
                c == self@,
                c.target.len() == 32,
                nat_of(c.target) <= nat_of(min_target_spec()),
                forall|a: int| 0 <= a < i ==> (#[trigger] c.utxos[a]).hash.len() == 32,
                forall|a: int, b: int|
                    0 <= a < b < un && a < i ==> (#[trigger] c.utxos[a]).hash != (
                    #[trigger] c.utxos[b]).hash,
            decreases un - i,
        {
            if self.utxos.entry_at(i).hash.as_be_bytes().len() != 32 {
                proof {
                    assert(c.utxos[i as int].hash.len() != 32);
                    assert(!wf_utxo_seq(c.utxos));
                }
                return false;
            }
            let mut j: usize = i + 1;
            while j < un
                invariant
                    i < j <= un,
                    i < un,
                    un == c.utxos.len(),
                    c == self@,
                    forall|b: int|
                        i < b < j ==> (#[trigger] c.utxos[b]).hash != c.utxos[i as int].hash,
                decreases un - j,
            {
                let first = self.utxos.entry_at(i);
                if first.hash.equals(&self.utxos.entry_at(j).hash) {
                    proof {
                        assert(c.utxos[i as int].hash == c.utxos[j as int].hash);
                        assert(!crate::types::utxo::unique_keys(c.utxos));
                        assert(!wf_utxo_seq(c.utxos));
                    }
                    return false;
                }
                j = j + 1;
            }
            i = i + 1;
        }
        // every block holds well-shaped headers and transactions
        let bn = self.blocks.len();
        let mut bi: usize = 0;
        while bi < bn
            invariant
                bi <= bn,
                bn == c.blocks.len(),
                c == self@,
                c.target.len() == 32,
                nat_of(c.target) <= nat_of(min_target_spec()),
                wf_utxo_seq(c.utxos),
                forall|b: int| 0 <= b < bi ==> (#[trigger] c.blocks[b]).wf(),
            decreases bn - bi,
        {
            proof {
                assert(c.blocks[bi as int] == self.blocks@[bi as int]@);
            }
            if self.blocks[bi].header.prev_block_hash.as_be_bytes().len() != 32 {
                proof {
                    assert(!c.blocks[bi as int].header.wf());
                    assert(!c.blocks[bi as int].wf());
                }
                return false;
            }
            if self.blocks[bi].header.merkle_root.as_hash().as_be_bytes().len() != 32 {
                proof {
                    assert(!c.blocks[bi as int].header.wf());
                    assert(!c.blocks[bi as int].wf());
                }
                return false;
            }
            if self.blocks[bi].header.target.as_be_bytes().len() != 32 {
                proof {
                    assert(!c.blocks[bi as int].header.wf());
                    assert(!c.blocks[bi as int].wf());
                }
                return false;
            }
            let tn = self.blocks[bi].transactions.len();
            let mut ti: usize = 0;
            while ti < tn
                invariant
                    ti <= tn,
                    bi < bn,
                    bn == c.blocks.len(),
                    tn == c.blocks[bi as int].txs.len(),
                    c == self@,
                    c.blocks[bi as int].header.wf(),
                    forall|t: int| 0 <= t < ti ==> (#[trigger] c.blocks[bi as int].txs[t]).wf(),
                decreases tn - ti,
            {
                let inn = self.blocks[bi].transactions[ti].inputs.len();
                let mut ii: usize = 0;
                while ii < inn
                    invariant
                        ii <= inn,
                        bi < bn,
                        ti < tn,
                        bn == c.blocks.len(),
                        tn == c.blocks[bi as int].txs.len(),
                        inn == c.blocks[bi as int].txs[ti as int].inputs.len(),
                        c == self@,
                        forall|a: int|
                            0 <= a < ii ==> (#[trigger] c.blocks[bi as int].txs[ti as int].inputs[a]).wf(),
                    decreases inn - ii,
                {
                    if self.blocks[bi].transactions[ti].inputs[ii].prev_transaction_output_hash.as_be_bytes().len()
                        != 32 {
                        proof {
                            assert(c.blocks[bi as int] == self.blocks@[bi as int]@);
                            assert(c.blocks[bi as int].txs[ti as int]
                                == self.blocks@[bi as int].transactions@[ti as int]@);
                            assert(!(c.blocks[bi as int].txs[ti as int].inputs[ii as int]).wf());
                            assert(!c.blocks[bi as int].txs[ti as int].wf());
                            assert(!c.blocks[bi as int].wf());
                        }
                        return false;
                    }
                    ii = ii + 1;
                }
                proof {
                    assert(c.blocks[bi as int].txs[ti as int].wf());
                }
                ti = ti + 1;
            }
            proof {
                assert(c.blocks[bi as int].wf());
            }
            bi = bi + 1;
        }
        // linkage, time order, proof of work and Merkle commitment
        let mut k: usize = 1;
        while k < bn
            invariant
                1 <= k,
                bn > 0 ==> k <= bn,
                bn == c.blocks.len(),
                c == self@,
                c.target.len() == 32,
                nat_of(c.target) <= nat_of(min_target_spec()),
                wf_utxo_seq(c.utxos),
                forall|b: int| 0 <= b < bn ==> (#[trigger] c.blocks[b]).wf(),
                forall|x: int|
                    1 <= x < k ==> (#[trigger] c.blocks[x]).header.prev == header_hash(
                        c.blocks[x - 1].header,
                    ),
                forall|x: int|
                    1 <= x < k ==> c.blocks[x - 1].header.timestamp < (
                    #[trigger] c.blocks[x]).header.timestamp,
                forall|x: int|
                    1 <= x < k ==> nat_of(header_hash((#[trigger] c.blocks[x]).header)) <= nat_of(
                        c.blocks[x].header.target,
                    ),
                forall|x: int|
                    1 <= x < k ==> (#[trigger] c.blocks[x]).header.merkle_root == merkle_root_of(
                        c.blocks[x].txs,
                    ),
            decreases bn - k,
        {
            let prev_hash = self.blocks[k - 1].header.hash();
            proof {
                assert(c.blocks[k as int] == self.blocks@[k as int]@);
                assert(c.blocks[k - 1] == self.blocks@[k - 1]@);
                assert(prev_hash@ == header_hash(c.blocks[k - 1].header));
            }
            if !self.blocks[k].header.prev_block_hash.equals(&prev_hash) {
                proof {
                    assert(c.blocks[k as int].header.prev != header_hash(c.blocks[k - 1].header));
                    assert(!chain_linked(c.blocks));
                }
                return false;
            }
            if self.blocks[k].header.timestamp <= self.blocks[k - 1].header.timestamp {
                proof {
                    assert(!times_increasing(c.blocks));
                }
                return false;
            }
            let h = self.blocks[k].header.hash();
            if !h.matches_target(&self.blocks[k].header.target) {
                return false;
            }
            if self.blocks[k].transactions.len() == 0 {
                proof {
                    assert(c.blocks[k as int].txs.map_values(|t: TxV| tx_hash(t)) =~= Seq::<
                        Seq<u8>,
                    >::empty());
                    assert(merkle_root_of(c.blocks[k as int].txs) == Seq::<u8>::empty());
                    assert(c.blocks[k as int].header.merkle_root.len() == 32);
                }
                return false;
            }
            let mr = crate::merkle::MerkleRoot::calculate(&self.blocks[k].transactions);
            if !mr.equals(&self.blocks[k].header.merkle_root) {
                return false;
            }
            k = k + 1;
        }
        // mempool: descending fees, well-formed transactions
        let mn = self.mempool.len();
        let mut q: usize = 1;
        while q < mn
            invariant
                1 <= q,
                mn > 0 ==> q <= mn,
                mn == c.mempool.len(),
                c == self@,
                forall|x: int|
                    1 <= x < q ==> (#[trigger] c.mempool[x]).fee <= c.mempool[x - 1].fee,
            decreases mn - q,
        {
            if self.mempool[q - 1].fee < self.mempool[q].fee {
                proof {
                    assert(c.mempool[q - 1] == self.mempool@[q - 1]@);
                    assert(c.mempool[q as int] == self.mempool@[q as int]@);
                    assert(c.mempool[q - 1].fee < c.mempool[q as int].fee);
                    assert(!mempool_sorted(c.mempool));
                }
                return false;
            }
            q = q + 1;
        }
        proof {
            assert(mempool_sorted(c.mempool)) by {
                assert forall|a: int, b: int| 0 <= a < b < c.mempool.len() implies (
                #[trigger] c.mempool[a]).fee >= (#[trigger] c.mempool[b]).fee by {
                    lemma_adjacent_sorted(c.mempool, a, b);
                }
            }
        }
        let mut q2: usize = 0;
        while q2 < mn
            invariant
                q2 <= mn,
                mn == c.mempool.len(),
                c == self@,
                c.target.len() == 32,
                nat_of(c.target) <= nat_of(min_target_spec()),
                wf_utxo_seq(c.utxos),
                forall|b: int| 0 <= b < c.blocks.len() ==> (#[trigger] c.blocks[b]).wf(),
                chain_linked(c.blocks),
                times_increasing(c.blocks),
                pow_ok(c.blocks),
                merkle_ok(c.blocks),
                mempool_sorted(c.mempool),
                forall|t: int| 0 <= t < q2 ==> (#[trigger] c.mempool[t]).tx.wf(),
            decreases mn - q2,
        {
            let inn = self.mempool[q2].transaction.inputs.len();
            let mut ii: usize = 0;
            while ii < inn
                invariant
                    ii <= inn,
                    q2 < mn,
                    mn == c.mempool.len(),
                    inn == c.mempool[q2 as int].tx.inputs.len(),
                    c == self@,
                    forall|a: int|
                        0 <= a < ii ==> (#[trigger] c.mempool[q2 as int].tx.inputs[a]).wf(),
                decreases inn - ii,
            {
                if self.mempool[q2].transaction.inputs[ii].prev_transaction_output_hash.as_be_bytes().len()
                    != 32 {
                    proof {
                        assert(c.mempool[q2 as int] == self.mempool@[q2 as int]@);
                        assert(c.mempool[q2 as int].tx
                            == self.mempool@[q2 as int].transaction@);
                        assert(!(c.mempool[q2 as int].tx.inputs[ii as int]).wf());
                        assert(!c.mempool[q2 as int].tx.wf());
                    }
                    return false;
                }
                ii = ii + 1;
            }
            proof {
                assert(c.mempool[q2 as int].tx.wf());
            }
            q2 = q2 + 1;
        }
        true
    }
}

/// Relies on chrono's Utc::now for the current time in whole seconds since
/// the epoch; nothing is assumed about the value.
#[verifier::external_body]
fn now_seconds() -> (r: i64) {
    chrono::Utc::now().timestamp()
}

/// Whether a mempool entry has outlived the maximum age at the given time.
pub open spec fn expired(e: MempoolEntryV, now: i64) -> bool {
    (now as int) - (e.timestamp as int) > crate::MAX_MEMPOOL_TRANSACTION_AGE
}

/// The entries young enough to stay, in order.
pub open spec fn keep_fresh(m: Seq<MempoolEntryV>, now: i64) -> Seq<MempoolEntryV>
    decreases m.len(),
{
    if m.len() == 0 {
        m
    } else {
        let rest = keep_fresh(m.drop_first(), now);
        if expired(m.first(), now) {
            rest
        } else {
            seq![m.first()] + rest
        }
    }
}

/// The inputs of every evicted entry, in order.
pub open spec fn evicted_inputs(m: Seq<MempoolEntryV>, now: i64) -> Seq<TxInV>
    decreases m.len(),
{
    if m.len() == 0 {
        Seq::empty()
    } else {
        (if expired(m.first(), now) {
            m.first().tx.inputs
        } else {
            Seq::empty()
        }) + evicted_inputs(m.drop_first(), now)
    }
}

/// The outcome of a mempool sweep at a time: old entries leave and their
/// reservations are released.
pub open spec fn cleanup_at(c: ChainV, now: i64) -> ChainV {
    ChainV {
        mempool: keep_fresh(c.mempool, now),
        utxos: unmark_inputs(c.utxos, evicted_inputs(c.mempool, now)),
        ..c
    }
}

/// Appending one entry to a sweep.
pub proof fn lemma_cleanup_snoc(m: Seq<MempoolEntryV>, now: i64, e: MempoolEntryV)
    ensures
        keep_fresh(m.push(e), now) == keep_fresh(m, now) + (if expired(e, now) {
            Seq::<MempoolEntryV>::empty()
        } else {
            seq![e]
        }),
        evicted_inputs(m.push(e), now) == evicted_inputs(m, now) + (if expired(e, now) {
            e.tx.inputs
        } else {
            Seq::<TxInV>::empty()
        }),
    decreases m.len(),
{
    if m.len() == 0 {
        assert(m.push(e).first() == e);
        assert(m.push(e).drop_first() =~= Seq::<MempoolEntryV>::empty());
        assert(keep_fresh(Seq::<MempoolEntryV>::empty(), now) == Seq::<MempoolEntryV>::empty());
        assert(evicted_inputs(Seq::<MempoolEntryV>::empty(), now) == Seq::<TxInV>::empty());
        assert(keep_fresh(m, now) == m);
        if expired(e, now) {
            assert(keep_fresh(m.push(e), now) =~= keep_fresh(m, now)
                + Seq::<MempoolEntryV>::empty());
            assert(evicted_inputs(m.push(e), now) =~= evicted_inputs(m, now) + e.tx.inputs);
        } else {
            assert(keep_fresh(m.push(e), now) =~= keep_fresh(m, now) + seq![e]);
            assert(evicted_inputs(m.push(e), now) =~= evicted_inputs(m, now)
                + Seq::<TxInV>::empty());
        }
    } else {
        assert(m.push(e).first() == m.first());
        assert(m.push(e).drop_first() =~= m.drop_first().push(e));
        lemma_cleanup_snoc(m.drop_first(), now, e);
        if expired(m.first(), now) {
            assert(evicted_inputs(m.push(e), now) =~= m.first().tx.inputs + (evicted_inputs(
                m.drop_first(),
                now,
            ) + (if expired(e, now) {
                e.tx.inputs
            } else {
                Seq::<TxInV>::empty()
            })));
            assert(m.first().tx.inputs + (evicted_inputs(m.drop_first(), now) + (if expired(
                e,
                now,
            ) {
                e.tx.inputs
            } else {
                Seq::<TxInV>::empty()
            })) =~= (m.first().tx.inputs + evicted_inputs(m.drop_first(), now)) + (if expired(
                e,
                now,
            ) {
                e.tx.inputs
            } else {
                Seq::<TxInV>::empty()
            }));
        } else {
            assert(keep_fresh(m.push(e), now) =~= (seq![m.first()] + keep_fresh(
                m.drop_first(),
                now,
            )) + (if expired(e, now) {
                Seq::<MempoolEntryV>::empty()
            } else {
                seq![e]
            }));
            assert(evicted_inputs(m.push(e), now) =~= evicted_inputs(m, now) + (if expired(
                e,
                now,
            ) {
                e.tx.inputs
            } else {
                Seq::<TxInV>::empty()
            }));
        }
    }
}

/// A sweep keeps order and keeps only original entries.
pub proof fn lemma_keep_fresh_props(m: Seq<MempoolEntryV>, now: i64)
    ensures
        forall|k: int|
            0 <= k < keep_fresh(m, now).len() ==> exists|i: int|
                0 <= i < m.len() && #[trigger] keep_fresh(m, now)[k] == m[i],
        mempool_sorted(m) ==> mempool_sorted(keep_fresh(m, now)),
    decreases m.len(),
{
    if m.len() > 0 {
        lemma_keep_fresh_props(m.drop_first(), now);
        let rest = keep_fresh(m.drop_first(), now);
        let t = keep_fresh(m, now);
        assert forall|k: int| 0 <= k < t.len() implies exists|i: int|
            0 <= i < m.len() && #[trigger] t[k] == m[i] by {
            if expired(m.first(), now) {
                let i = choose|i: int| 0 <= i < m.drop_first().len() && rest[k] == m.drop_first()[i];
                assert(t[k] == m[i + 1]);
            } else {
                if k == 0 {
                    assert(t[0] == m[0]);
                } else {
                    let i = choose|i: int|
                        0 <= i < m.drop_first().len() && rest[k - 1] == m.drop_first()[i];
                    assert(t[k] == m[i + 1]);
                }
            }
        }
        if mempool_sorted(m) {
            assert(mempool_sorted(m.drop_first())) by {
                assert forall|i: int, j: int|
                    0 <= i < j < m.drop_first().len() implies (#[trigger] m.drop_first()[i]).fee
                    >= (#[trigger] m.drop_first()[j]).fee by {
                    assert(m.drop_first()[i] == m[i + 1]);
                    assert(m.drop_first()[j] == m[j + 1]);
                }
            }
            assert forall|i: int, j: int| 0 <= i < j < t.len() implies (#[trigger] t[i]).fee >= (
            #[trigger] t[j]).fee by {
                if !expired(m.first(), now) && i == 0 {
                    let jj = choose|x: int|
                        0 <= x < m.drop_first().len() && rest[j - 1] == m.drop_first()[x];
                    assert(t[j] == m[jj + 1]);
                    assert(m[0].fee >= m[jj + 1].fee);
                }
            }
        }
    }
}

impl Blockchain {
    /// Evicts every mempool entry older than the maximum age at the given
    /// time and releases the outputs its inputs had reserved.
    pub fn cleanup_mempool_at(&mut self, now: i64)
        requires
            old(self).wf(),
        ensures
            final(self)@ == cleanup_at(old(self)@, now),
            final(self).wf(),
    {
        let ghost c0 = self@;
        let ghost m0 = self@.mempool;
        let ghost u0 = self@.utxos;
        let mut kept: Vec<MempoolEntry> = Vec::new();
        let mut to_unmark: Vec<crate::hash::Hash> = Vec::new();
        let ghost mut ev = Seq::<TxInV>::empty();
        let mut k: usize = 0;
        proof {
            assert(m0.take(0) =~= Seq::<MempoolEntryV>::empty());
            assert(keep_fresh(Seq::<MempoolEntryV>::empty(), now)
                == Seq::<MempoolEntryV>::empty());
            assert(evicted_inputs(Seq::<MempoolEntryV>::empty(), now) == Seq::<TxInV>::empty());
            assert(kept@.map_values(|e: MempoolEntry| e@) =~= Seq::<MempoolEntryV>::empty());
        }
        while k < self.mempool.len()
            invariant
                k <= m0.len(),
                c0 == old(self)@,
                self@ == c0,
                chain_wf(c0),
                m0 == self@.mempool,
                u0 == self@.utxos,
                kept@.map_values(|e: MempoolEntry| e@) == keep_fresh(m0.take(k as int), now),
                ev == evicted_inputs(m0.take(k as int), now),
                to_unmark@.len() == ev.len(),
                forall|a: int| 0 <= a < ev.len() ==> (#[trigger] to_unmark@[a])@ == ev[a].prev,
            decreases m0.len() - k,
        {
            let ghost entry_v = m0[k as int];
            let age_ok: bool = (now as i128) - (self.mempool[k].timestamp as i128) <= (
            crate::MAX_MEMPOOL_TRANSACTION_AGE as i128);
            proof {
                lemma_cleanup_snoc(m0.take(k as int), now, entry_v);
                assert(m0.take(k + 1) =~= m0.take(k as int).push(entry_v));
                assert(age_ok == !expired(entry_v, now));
            }
            if age_ok {
                kept.push(self.mempool[k].clone());
                proof {
                    assert(kept@.map_values(|e: MempoolEntry| e@) =~= keep_fresh(
                        m0.take(k as int),
                        now,
                    ) + seq![entry_v]);
                    assert(ev =~= evicted_inputs(m0.take(k + 1), now));
                }
            } else {
                let ghost ev_pre = ev;
                let inn = self.mempool[k].transaction.inputs.len();
                let mut ii: usize = 0;
                proof {
                    assert(entry_v.tx.inputs.take(0) =~= Seq::<TxInV>::empty());
                    assert(ev_pre + entry_v.tx.inputs.take(0) =~= ev_pre);
                }
                while ii < inn
                    invariant
                        ii <= inn,
                        k < m0.len(),
                        c0 == old(self)@,
                        self@ == c0,
                        m0 == self@.mempool,
                        inn == self.mempool@[k as int].transaction.inputs@.len(),
                        entry_v == m0[k as int],
                        ev == ev_pre + entry_v.tx.inputs.take(ii as int),
                        to_unmark@.len() == ev.len(),
                        forall|a: int|
                            0 <= a < ev.len() ==> (#[trigger] to_unmark@[a])@ == ev[a].prev,
                    decreases inn - ii,
                {
                    to_unmark.push(
                        self.mempool[k].transaction.inputs[ii].prev_transaction_output_hash.clone(),
                    );
                    proof {
                        ev = ev.push(entry_v.tx.inputs[ii as int]);
                        assert(ev =~= ev_pre + entry_v.tx.inputs.take(ii + 1));
                    }
                    ii = ii + 1;
                }
                proof {
                    assert(entry_v.tx.inputs.take(entry_v.tx.inputs.len() as int)
                        =~= entry_v.tx.inputs);
                    assert(ev =~= evicted_inputs(m0.take(k + 1), now));
                    assert(kept@.map_values(|e: MempoolEntry| e@) =~= keep_fresh(
                        m0.take(k + 1),
                        now,
                    ));
                }
            }
            k = k + 1;
        }
        proof {
            assert(m0.take(m0.len() as int) =~= m0);
        }
        self.mempool = kept;
        let mut j: usize = 0;
        proof {
            assert(ev.take(0) =~= Seq::<TxInV>::empty());
        }
        while j < to_unmark.len()
            invariant
                j <= to_unmark@.len(),
                c0 == old(self)@,
                chain_wf(c0),
                to_unmark@.len() == ev.len(),
                forall|a: int| 0 <= a < ev.len() ==> (#[trigger] to_unmark@[a])@ == ev[a].prev,
                ev == evicted_inputs(c0.mempool, now),
                self@.blocks == c0.blocks,
                self@.target == c0.target,
                self@.mempool == keep_fresh(c0.mempool, now),
                self@.utxos == unmark_inputs(c0.utxos, ev.take(j as int)),
            decreases to_unmark@.len() - j,
        {
            proof {
                lemma_unmark_inputs_snoc(c0.utxos, ev.take(j as int), ev[j as int]);
                assert(ev.take(j + 1) =~= ev.take(j as int).push(ev[j as int]));
            }
            self.utxos.set_marked(&to_unmark[j], false);
            j = j + 1;
        }
        proof {
            assert(ev.take(ev.len() as int) =~= ev);
            lemma_keep_fresh_props(c0.mempool, now);
            lemma_unmark_inputs_wf(c0.utxos, ev);
            assert forall|i: int| 0 <= i < self@.mempool.len() implies (
            #[trigger] self@.mempool[i]).tx.wf() by {
                let x = choose|x: int|
                    0 <= x < c0.mempool.len() && self@.mempool[i] == c0.mempool[x];
            }
        }
    }

    /// Admits a transaction at the current time.
    pub fn add_to_mempool(&mut self, transaction: Transaction) -> (r: Result<(), BtcError>)
        requires
            old(self).wf(),
            transaction@.wf(),
        ensures
            exists|now: i64|
                final(self)@ == #[trigger] admit_at(old(self)@, transaction@, now).0 && r
                    == admit_at(old(self)@, transaction@, now).1,
            final(self).wf(),
    {
        let now = now_seconds();
        let r = self.add_to_mempool_at(transaction, now);
        r
    }

    /// Sweeps the mempool at the current time.
    pub fn cleanup_mempool(&mut self)
        requires
            old(self).wf(),
        ensures
            exists|now: i64| final(self)@ == #[trigger] cleanup_at(old(self)@, now),
            final(self).wf(),
    {
        let now = now_seconds();
        self.cleanup_mempool_at(now);
    }
}

/// Canonical bytes of one stored UTXO entry: its key, then its output.
/// The reservation mark is not persisted.
pub open spec fn enc_utxo_entry(e: UtxoEntryV) -> Seq<u8> {
    e.hash + crate::types::transaction::enc_txout(e.output)
}

/// Canonical bytes of the UTXO entries, without a count.
pub open spec fn enc_utxo_seq(s: Seq<UtxoEntryV>) -> Seq<u8>
    decreases s.len(),
{
    if s.len() == 0 {
        Seq::empty()
    } else {
        enc_utxo_entry(s.first()) + enc_utxo_seq(s.drop_first())
    }
}

/// Canonical bytes of the block list, without a count.
pub open spec fn enc_block_seq(s: Seq<BlockV>) -> Seq<u8>
    decreases s.len(),
{
    if s.len() == 0 {
        Seq::empty()
    } else {
        crate::types::block::enc_block(s.first()) + enc_block_seq(s.drop_first())
    }
}

/// Canonical bytes of a ledger snapshot: the target, the counted blocks
/// and the counted UTXO entries. The mempool is not persisted.
pub open spec fn enc_chain(c: ChainV) -> Seq<u8> {
    c.target + crate::codec::enc_u64(c.blocks.len() as u64) + enc_block_seq(c.blocks)
        + crate::codec::enc_u64(c.utxos.len() as u64) + enc_utxo_seq(c.utxos)
}

/// The same UTXO entries with every reservation mark cleared, as a load
/// leaves them.
pub open spec fn unmarked(s: Seq<UtxoEntryV>) -> Seq<UtxoEntryV> {
    s.map_values(|e: UtxoEntryV| UtxoEntryV { hash: e.hash, marked: false, output: e.output })
}

impl Blockchain {
    /// The canonical snapshot bytes: blocks and target, with reservation
    /// marks and the mempool left out.
    pub fn save(&self) -> (r: Vec<u8>)
        ensures
            r@ == enc_chain(self@),
    {
        let mut out: Vec<u8> = Vec::new();
        crate::types::block::push_all(&mut out, self.target.as_be_bytes());
        crate::codec::encode_u64(&mut out, self.blocks.len() as u64);
        let ghost mid = out@;
        let mut i: usize = 0;
        while i < self.blocks.len()
            invariant
                i <= self.blocks@.len(),
                self@.blocks == self.blocks@.map_values(|b: Block| b@),
                out@ == mid + enc_block_seq(self@.blocks.take(i as int)),
            decreases self.blocks@.len() - i,
        {
            crate::types::block::encode_block(&mut out, &self.blocks[i]);
            proof {
                lemma_enc_block_seq_snoc(self@.blocks, i as int);
            }
            i = i + 1;
        }
        proof {
            assert(self@.blocks.take(self@.blocks.len() as int) =~= self@.blocks);
        }
        crate::codec::encode_u64(&mut out, self.utxos.len() as u64);
        let ghost mid2 = out@;
        let mut j: usize = 0;
        while j < self.utxos.len()
            invariant
                j <= self@.utxos.len(),
                self@.utxos.len() == self.utxos@.len(),
                self.utxos@ == self@.utxos,
                out@ == mid2 + enc_utxo_seq(self@.utxos.take(j as int)),
            decreases self@.utxos.len() - j,
        {
            let entry = self.utxos.entry_at(j);
            crate::types::block::push_all(&mut out, entry.hash.as_be_bytes());
            crate::types::transaction::encode_txout(&mut out, &entry.output);
            proof {
                lemma_enc_utxo_seq_snoc(self@.utxos, j as int);
                assert(out@ =~= mid2 + enc_utxo_seq(self@.utxos.take(j + 1)));
            }
            j = j + 1;
        }
        proof {
            assert(self@.utxos.take(self@.utxos.len() as int) =~= self@.utxos);
            assert(out@ =~= enc_chain(self@));
        }
        out
    }

    /// Reads a snapshot back: exactly the saved blocks and target, the
    /// UTXO entries with their marks cleared, and an empty mempool.
    pub fn load(data: &Vec<u8>) -> (r: Option<Blockchain>)
        ensures
            forall|cv: ChainV, rest: Seq<u8>|
                #![trigger enc_chain(cv).add(rest)]
                chain_wf(cv) && data@ == enc_chain(cv) + rest ==> (r matches Some(c) && c@.blocks
                    == cv.blocks && c@.target == cv.target && c@.utxos == unmarked(cv.utxos)
                    && c@.mempool == Seq::<MempoolEntryV>::empty() && c.wf()),
    {
        proof {
            crate::codec::lemma_buf_len_bound(data);
            crate::numeric::lemma_pow256_units();
            assert(data@.skip(0) =~= data@);
        }
        if data.len() < 32 {
            proof {
                assert forall|cv: ChainV, rest: Seq<u8>|
                    chain_wf(cv) && data@ == #[trigger] (enc_chain(cv).add(rest)) implies false by {
                    assert(enc_chain(cv).len() >= 32);
                }
            }
            return None;
        }
        let target_bytes = crate::codec::read_vec(data, 0, 32);
        let bc = match crate::codec::decode_u64(data, 32) {
            Some(x) => x,
            None => {
                proof {
                    assert forall|cv: ChainV, rest: Seq<u8>|
                        chain_wf(cv) && data@ == #[trigger] (enc_chain(
                            cv,
                        ).add(rest)) implies false by {
                        lemma_chain_parts(data@, cv, rest);
                    }
                }
                return None;
            },
        };
        let (nblocks, p1) = bc;
        let blk = match decode_block_list(data, p1, nblocks) {
            Some(x) => x,
            None => {
                proof {
                    assert forall|cv: ChainV, rest: Seq<u8>|
                        chain_wf(cv) && data@ == #[trigger] (enc_chain(
                            cv,
                        ).add(rest)) implies false by {
                        lemma_chain_parts(data@, cv, rest);
                        crate::numeric::lemma_bytes_of_exact(cv.blocks.len(), 8);
                    }
                }
                return None;
            },
        };
        let (blocks, p2) = blk;
        let uc = match crate::codec::decode_u64(data, p2) {
            Some(x) => x,
            None => {
                proof {
                    assert forall|cv: ChainV, rest: Seq<u8>|
                        chain_wf(cv) && data@ == #[trigger] (enc_chain(
                            cv,
                        ).add(rest)) implies false by {
                        lemma_chain_parts(data@, cv, rest);
                        crate::numeric::lemma_bytes_of_exact(cv.blocks.len(), 8);
                        crate::numeric::lemma_bytes_of_exact(cv.utxos.len(), 8);
                    }
                }
                return None;
            },
        };
        let (nutxo, p3) = uc;
        match decode_utxo_list(data, p3, nutxo) {
            None => {
                proof {
                    assert forall|cv: ChainV, rest: Seq<u8>|
                        chain_wf(cv) && data@ == #[trigger] (enc_chain(
                            cv,
                        ).add(rest)) implies false by {
                        lemma_chain_parts(data@, cv, rest);
                        crate::numeric::lemma_bytes_of_exact(cv.blocks.len(), 8);
                        crate::numeric::lemma_bytes_of_exact(cv.utxos.len(), 8);
                    }
                }
                None
            },
            Some((utxos, _)) => {
                let c = Blockchain {
                    utxos,
                    target: U256::from_be_bytes(target_bytes),
                    blocks,
                    mempool: Vec::new(),
                };
                proof {
                    assert(c@.mempool =~= Seq::<MempoolEntryV>::empty());
                    assert forall|cv: ChainV, rest: Seq<u8>|
                        chain_wf(cv) && data@ == #[trigger] (enc_chain(cv).add(rest)) implies c@.blocks
                        == cv.blocks && c@.target == cv.target && c@.utxos == unmarked(cv.utxos)
                        && c@.mempool == Seq::<MempoolEntryV>::empty() && c.wf() by {
                        lemma_chain_parts(data@, cv, rest);
                        crate::numeric::lemma_bytes_of_exact(cv.blocks.len(), 8);
                        crate::numeric::lemma_bytes_of_exact(cv.utxos.len(), 8);
                        assert(c@.target =~= cv.target);
                        assert(c@.blocks == cv.blocks);
                        assert(c@.utxos == unmarked(cv.utxos));
                        lemma_load_wf(cv, c@);
                    }
                }
                Some(c)
            },
        }
    }
}

/// A loaded snapshot of a well-formed chain is well formed: only the marks
/// changed, and no invariant reads them.
proof fn lemma_load_wf(cv: ChainV, c: ChainV)
    requires
        chain_wf(cv),
        c.blocks == cv.blocks,
        c.target == cv.target,
        c.utxos == unmarked(cv.utxos),
        c.mempool == Seq::<MempoolEntryV>::empty(),
    ensures
        chain_wf(c),
{
    assert(wf_utxo_seq(c.utxos)) by {
        assert forall|i: int, j: int| 0 <= i < j < c.utxos.len() implies (
        #[trigger] c.utxos[i]).hash != (#[trigger] c.utxos[j]).hash by {
            assert(c.utxos[i].hash == cv.utxos[i].hash);
            assert(c.utxos[j].hash == cv.utxos[j].hash);
        }
        assert forall|i: int| 0 <= i < c.utxos.len() implies (#[trigger] c.utxos[i]).hash.len()
            == 32 by {
            assert(c.utxos[i].hash == cv.utxos[i].hash);
        }
    }
}

/// Extending a prefix of the block list by one element extends its bytes.
pub proof fn lemma_enc_block_seq_snoc(s: Seq<BlockV>, i: int)
    requires
        0 <= i < s.len(),
    ensures
        enc_block_seq(s.take(i + 1)) == enc_block_seq(s.take(i)) + crate::types::block::enc_block(
            s[i],
        ),
    decreases i,
{
    if i == 0 {
        assert(s.take(1).first() == s[0]);
        assert(s.take(1).drop_first() =~= Seq::<BlockV>::empty());
        assert(s.take(0) =~= Seq::<BlockV>::empty());
        assert(enc_block_seq(Seq::<BlockV>::empty()) == Seq::<u8>::empty());
        assert(enc_block_seq(s.take(1)) =~= crate::types::block::enc_block(s[0]));
        assert(enc_block_seq(s.take(0)) + crate::types::block::enc_block(s[0])
            =~= crate::types::block::enc_block(s[0]));
    } else {
        lemma_enc_block_seq_snoc(s.drop_first(), i - 1);
        assert(s.take(i + 1).first() == s[0]);
        assert(s.take(i + 1).drop_first() =~= s.drop_first().take(i));
        assert(s.take(i).first() == s[0]);
        assert(s.take(i).drop_first() =~= s.drop_first().take(i - 1));
        assert(s.drop_first()[i - 1] == s[i]);
        assert(crate::types::block::enc_block(s[0]) + (enc_block_seq(s.drop_first().take(i - 1))
            + crate::types::block::enc_block(s[i])) =~= (crate::types::block::enc_block(s[0])
            + enc_block_seq(s.drop_first().take(i - 1))) + crate::types::block::enc_block(s[i]));
    }
}

/// Extending a prefix of the UTXO list by one element extends its bytes.
pub proof fn lemma_enc_utxo_seq_snoc(s: Seq<UtxoEntryV>, i: int)
    requires
        0 <= i < s.len(),
    ensures
        enc_utxo_seq(s.take(i + 1)) == enc_utxo_seq(s.take(i)) + enc_utxo_entry(s[i]),
    decreases i,
{
    if i == 0 {
        assert(s.take(1).first() == s[0]);
        assert(s.take(1).drop_first() =~= Seq::<UtxoEntryV>::empty());
        assert(s.take(0) =~= Seq::<UtxoEntryV>::empty());
        assert(enc_utxo_seq(Seq::<UtxoEntryV>::empty()) == Seq::<u8>::empty());
        assert(enc_utxo_seq(s.take(1)) =~= enc_utxo_entry(s[0]));
        assert(enc_utxo_seq(s.take(0)) + enc_utxo_entry(s[0]) =~= enc_utxo_entry(s[0]));
    } else {
        lemma_enc_utxo_seq_snoc(s.drop_first(), i - 1);
        assert(s.take(i + 1).first() == s[0]);
        assert(s.take(i + 1).drop_first() =~= s.drop_first().take(i));
        assert(s.take(i).first() == s[0]);
        assert(s.take(i).drop_first() =~= s.drop_first().take(i - 1));
        assert(s.drop_first()[i - 1] == s[i]);
        assert(enc_utxo_entry(s[0]) + (enc_utxo_seq(s.drop_first().take(i - 1)) + enc_utxo_entry(
            s[i],
        )) =~= (enc_utxo_entry(s[0]) + enc_utxo_seq(s.drop_first().take(i - 1))) + enc_utxo_entry(
            s[i],
        ));
    }
}

/// What a snapshot encoding forces about the buffer.
proof fn lemma_chain_parts(b: Seq<u8>, cv: ChainV, rest: Seq<u8>)
    requires
        chain_wf(cv),
        b.len() < pow256(8),
        b == enc_chain(cv) + rest,
    ensures
        b.len() >= enc_chain(cv).len(),
        enc_chain(cv).len() == 32 + 8 + enc_block_seq(cv.blocks).len() + 8 + enc_utxo_seq(
            cv.utxos,
        ).len(),
        b.subrange(0, 32) == cv.target,
        nat_of(b.subrange(32, 40)) == cv.blocks.len(),
        cv.blocks.len() < pow256(8),
        cv.utxos.len() < pow256(8),
        crate::types::block::wf_tx_seq_blocks(cv.blocks),
        b.skip(40) == enc_block_seq(cv.blocks) + (crate::codec::enc_u64(cv.utxos.len() as u64)
            + enc_utxo_seq(cv.utxos) + rest),
        nat_of(
            b.subrange(
                40 + enc_block_seq(cv.blocks).len() as int,
                40 + enc_block_seq(cv.blocks).len() as int + 8,
            ),
        ) == cv.utxos.len(),
        b.skip(40 + enc_block_seq(cv.blocks).len() as int + 8) == enc_utxo_seq(cv.utxos) + rest,
{
    let bl = enc_block_seq(cv.blocks).len() as int;
    let ul = enc_utxo_seq(cv.utxos).len() as int;
    assert(enc_chain(cv).len() == 32 + 8 + bl + 8 + ul);
    assert(cv.blocks.len() <= b.len()) by {
        lemma_block_seq_min_len(cv.blocks);
    }
    assert(cv.utxos.len() <= b.len()) by {
        lemma_utxo_seq_min_len(cv.utxos);
    }
    crate::numeric::lemma_pow256_units();
    crate::numeric::lemma_bytes_of_exact(cv.blocks.len(), 8);
    crate::numeric::lemma_bytes_of_exact(cv.utxos.len(), 8);
    assert(b.subrange(0, 32) =~= cv.target) by {
        assert forall|j: int| 0 <= j < 32 implies #[trigger] b.subrange(0, 32)[j]
            == cv.target[j] by {
            assert(b[j] == (enc_chain(cv) + rest)[j]);
        }
    }
    assert(b.subrange(32, 40) =~= crate::codec::enc_u64(cv.blocks.len() as u64)) by {
        assert forall|j: int| 0 <= j < 8 implies #[trigger] b.subrange(32, 40)[j]
            == crate::codec::enc_u64(cv.blocks.len() as u64)[j] by {
            assert(b.subrange(32, 40)[j] == b[32 + j]);
            assert(b[32 + j] == (enc_chain(cv) + rest)[32 + j]);
            assert(enc_chain(cv)[32 + j] == crate::codec::enc_u64(cv.blocks.len() as u64)[j]);
        }
    }
    assert(b.skip(40) =~= enc_block_seq(cv.blocks) + (crate::codec::enc_u64(cv.utxos.len() as u64)
        + enc_utxo_seq(cv.utxos) + rest)) by {
        assert forall|j: int| 0 <= j < b.len() - 40 implies #[trigger] b.skip(40)[j] == (
        enc_block_seq(cv.blocks) + (crate::codec::enc_u64(cv.utxos.len() as u64) + enc_utxo_seq(
            cv.utxos,
        ) + rest))[j] by {
            assert(b.skip(40)[j] == b[40 + j]);
            assert(b[40 + j] == (enc_chain(cv) + rest)[40 + j]);
        }
    }
    assert(b.subrange(40 + bl, 40 + bl + 8) =~= crate::codec::enc_u64(cv.utxos.len() as u64)) by {
        assert forall|j: int| 0 <= j < 8 implies #[trigger] b.subrange(40 + bl, 40 + bl + 8)[j]
            == crate::codec::enc_u64(cv.utxos.len() as u64)[j] by {
            assert(b.subrange(40 + bl, 40 + bl + 8)[j] == b[40 + bl + j]);
            assert(b[40 + bl + j] == (enc_chain(cv) + rest)[40 + bl + j]);
            assert(enc_chain(cv)[40 + bl + j] == crate::codec::enc_u64(cv.utxos.len() as u64)[j]);
        }
    }
    assert(b.skip(40 + bl + 8) =~= enc_utxo_seq(cv.utxos) + rest) by {
        assert forall|j: int| 0 <= j < b.len() - 40 - bl - 8 implies #[trigger] b.skip(
            40 + bl + 8,
        )[j] == (enc_utxo_seq(cv.utxos) + rest)[j] by {
            assert(b.skip(40 + bl + 8)[j] == b[40 + bl + 8 + j]);
            assert(b[40 + bl + 8 + j] == (enc_chain(cv) + rest)[40 + bl + 8 + j]);
        }
    }
}

/// A block encoding is at least one byte.
proof fn lemma_block_seq_min_len(s: Seq<BlockV>)
    ensures
        enc_block_seq(s).len() >= s.len(),
    decreases s.len(),
{
    if s.len() > 0 {
        lemma_block_seq_min_len(s.drop_first());
        assert(crate::types::block::enc_block(s.first()).len() >= 1);
    }
}

/// A UTXO entry encoding is at least one byte.
proof fn lemma_utxo_seq_min_len(s: Seq<UtxoEntryV>)
    ensures
        enc_utxo_seq(s).len() >= s.len(),
    decreases s.len(),
{
    if s.len() > 0 {
        lemma_utxo_seq_min_len(s.drop_first());
        assert(enc_utxo_entry(s.first()).len() >= 32) by {
            assert(s.first().hash.len() >= 0);
            assert(crate::types::transaction::enc_txout(s.first().output).len() >= 32);
        }
    }
}

/// Reads back `n` blocks.
pub fn decode_block_list(buf: &Vec<u8>, pos: usize, n: u64) -> (r: Option<(Vec<Block>, usize)>)
    requires
        pos <= buf@.len(),
    ensures
        r matches Some((v, p)) ==> pos <= p <= buf@.len() && v@.len() == n
            && crate::types::block::wf_tx_seq_blocks(v@.map_values(|b: Block| b@)),
        forall|s: Seq<BlockV>, rest: Seq<u8>|
            s.len() == n && crate::types::block::wf_tx_seq_blocks(s) && buf@.skip(pos as int)
                == #[trigger] (enc_block_seq(s) + rest) ==> (r matches Some((v, p)) && v@.map_values(
                |b: Block| b@,
            ) == s && p == pos + enc_block_seq(s).len()),
    decreases n,
{
    if n == 0 {
        let v: Vec<Block> = Vec::new();
        proof {
            assert(v@.map_values(|b: Block| b@) =~= Seq::<BlockV>::empty());
            assert forall|s: Seq<BlockV>, rest: Seq<u8>|
                s.len() == 0 && buf@.skip(pos as int) == #[trigger] (enc_block_seq(s)
                    + rest) implies v@.map_values(|b: Block| b@) == s && enc_block_seq(s).len()
                == 0 by {
                assert(s =~= Seq::<BlockV>::empty());
            }
        }
        return Some((v, pos));
    }
    match crate::types::block::decode_block(buf, pos) {
        None => {
            proof {
                assert forall|s: Seq<BlockV>, rest: Seq<u8>|
                    s.len() == n && crate::types::block::wf_tx_seq_blocks(s) && buf@.skip(
                        pos as int,
                    ) == #[trigger] (enc_block_seq(s) + rest) implies false by {
                    lemma_block_seq_head(buf@, pos as int, s, rest);
                }
            }
            None
        },
        Some((e, p1)) => {
            match decode_block_list(buf, p1, n - 1) {
                None => {
                    proof {
                        assert forall|s: Seq<BlockV>, rest: Seq<u8>|
                            s.len() == n && crate::types::block::wf_tx_seq_blocks(s) && buf@.skip(
                                pos as int,
                            ) == #[trigger] (enc_block_seq(s) + rest) implies false by {
                            lemma_block_seq_head(buf@, pos as int, s, rest);
                            crate::codec::lemma_skip_prefix(
                                buf@,
                                pos as int,
                                crate::types::block::enc_block(s.first()),
                                enc_block_seq(s.drop_first()) + rest,
                            );
                            assert(s.drop_first().len() == n - 1);
                            assert(crate::types::block::wf_tx_seq_blocks(s.drop_first()));
                        }
                    }
                    None
                },
                Some((mut v, p2)) => {
                    let ghost tail_views = v@.map_values(|b: Block| b@);
                    v.insert(0, e);
                    proof {
                        assert(v@.map_values(|b: Block| b@) =~= tail_views.insert(0, e@));
                        assert forall|s: Seq<BlockV>, rest: Seq<u8>|
                            s.len() == n && crate::types::block::wf_tx_seq_blocks(s) && buf@.skip(
                                pos as int,
                            ) == #[trigger] (enc_block_seq(s) + rest) implies v@.map_values(
                            |b: Block| b@,
                        ) == s && p2 == pos + enc_block_seq(s).len() by {
                            lemma_block_seq_head(buf@, pos as int, s, rest);
                            crate::codec::lemma_skip_prefix(
                                buf@,
                                pos as int,
                                crate::types::block::enc_block(s.first()),
                                enc_block_seq(s.drop_first()) + rest,
                            );
                            assert(s.drop_first().len() == n - 1);
                            assert(crate::types::block::wf_tx_seq_blocks(s.drop_first()));
                            assert(tail_views == s.drop_first());
                            assert(v@.map_values(|b: Block| b@) =~= s);
                        }
                        assert(crate::types::block::wf_tx_seq_blocks(
                            v@.map_values(|b: Block| b@),
                        )) by {
                            let m = v@.map_values(|b: Block| b@);
                            assert forall|i: int| 0 <= i < m.len() implies (#[trigger] m[i]).wf()
                            by {
                                if i > 0 {
                                    assert(m[i] == tail_views[i - 1]);
                                } else {
                                    assert(m[0] == e@);
                                }
                            }
                        }
                    }
                    Some((v, p2))
                },
            }
        },
    }
}

/// Splitting the encoding of a non-empty block list at its first element.
proof fn lemma_block_seq_head(b: Seq<u8>, pos: int, s: Seq<BlockV>, rest: Seq<u8>)
    requires
        0 <= pos <= b.len(),
        s.len() > 0,
        crate::types::block::wf_tx_seq_blocks(s),
        b.skip(pos) == enc_block_seq(s) + rest,
    ensures
        s.first().wf(),
        b.skip(pos) == crate::types::block::enc_block(s.first()) + (enc_block_seq(s.drop_first())
            + rest),
        enc_block_seq(s).len() == crate::types::block::enc_block(s.first()).len() + enc_block_seq(
            s.drop_first(),
        ).len(),
{
    assert(s[0].wf());
    assert(enc_block_seq(s) == crate::types::block::enc_block(s.first()) + enc_block_seq(
        s.drop_first(),
    ));
    assert((crate::types::block::enc_block(s.first()) + enc_block_seq(s.drop_first())) + rest
        =~= crate::types::block::enc_block(s.first()) + (enc_block_seq(s.drop_first()) + rest));
}

/// Reads back `n` stored UTXO entries, marks cleared.
pub fn decode_utxo_list(buf: &Vec<u8>, pos: usize, n: u64) -> (r: Option<(UtxoSet, usize)>)
    requires
        pos <= buf@.len(),
    ensures
        r matches Some((v, p)) ==> pos <= p <= buf@.len(),
        forall|s: Seq<UtxoEntryV>, rest: Seq<u8>|
            s.len() == n && wf_utxo_seq(s) && buf@.skip(pos as int) == #[trigger] (enc_utxo_seq(s)
                + rest) ==> (r matches Some((v, p)) && v@ == unmarked(s) && p == pos + enc_utxo_seq(
                s,
            ).len()),
    decreases n,
{
    if n == 0 {
        let v = UtxoSet::new();
        proof {
            assert forall|s: Seq<UtxoEntryV>, rest: Seq<u8>|
                s.len() == 0 && buf@.skip(pos as int) == #[trigger] (enc_utxo_seq(s)
                    + rest) implies v@ == unmarked(s) && enc_utxo_seq(s).len() == 0 by {
                assert(s =~= Seq::<UtxoEntryV>::empty());
                assert(v@ =~= unmarked(s));
            }
        }
        return Some((v, pos));
    }
    if buf.len() - pos < 32 {
        proof {
            assert forall|s: Seq<UtxoEntryV>, rest: Seq<u8>|
                s.len() == n && wf_utxo_seq(s) && buf@.skip(pos as int) == #[trigger] (enc_utxo_seq(
                    s,
                ) + rest) implies false by {
                lemma_utxo_seq_head(buf@, pos as int, s, rest);
            }
        }
        return None;
    }
    let hash_bytes = crate::codec::read_vec(buf, pos, 32);
    let mid = pos + 32;
    match crate::types::transaction::decode_txout(buf, mid) {
        None => {
            proof {
                assert forall|s: Seq<UtxoEntryV>, rest: Seq<u8>|
                    s.len() == n && wf_utxo_seq(s) && buf@.skip(pos as int) == #[trigger] (
                enc_utxo_seq(s) + rest) implies false by {
                    lemma_utxo_seq_head(buf@, pos as int, s, rest);
                    crate::codec::lemma_skip_prefix(
                        buf@,
                        pos as int,
                        s.first().hash,
                        crate::types::transaction::enc_txout(s.first().output) + (enc_utxo_seq(
                            s.drop_first(),
                        ) + rest),
                    );
                }
            }
            None
        },
        Some((output, p1)) => {
            match decode_utxo_list(buf, p1, n - 1) {
                None => {
                    proof {
                        assert forall|s: Seq<UtxoEntryV>, rest: Seq<u8>|
                            s.len() == n && wf_utxo_seq(s) && buf@.skip(pos as int) == #[trigger] (
                        enc_utxo_seq(s) + rest) implies false by {
                            lemma_utxo_seq_head(buf@, pos as int, s, rest);
                            crate::codec::lemma_skip_prefix(
                                buf@,
                                pos as int,
                                s.first().hash,
                                crate::types::transaction::enc_txout(s.first().output) + (
                                enc_utxo_seq(s.drop_first()) + rest),
                            );
                            crate::codec::lemma_skip_prefix(
                                buf@,
                                pos + 32,
                                crate::types::transaction::enc_txout(s.first().output),
                                enc_utxo_seq(s.drop_first()) + rest,
                            );
                            lemma_utxo_tail_wf(s);
                        }
                    }
                    None
                },
                Some((rest_set, p2)) => {
                    // entries are rebuilt front to back; prepend by
                    // rebuilding through insert on a fresh set is costly,
                    // so decode keeps the recursive structure and inserts
                    // at the front of the entry list via a rebuilt set
                    let entry_hash = crate::hash::Hash::from_be_bytes(hash_bytes);
                    let prepended = rest_set.prepend(entry_hash, output);
                    proof {
                        assert forall|s: Seq<UtxoEntryV>, rest: Seq<u8>|
                            s.len() == n && wf_utxo_seq(s) && buf@.skip(pos as int) == #[trigger] (
                        enc_utxo_seq(s) + rest) implies prepended@ == unmarked(s) && p2 == pos
                            + enc_utxo_seq(s).len() by {
                            lemma_utxo_seq_head(buf@, pos as int, s, rest);
                            crate::codec::lemma_skip_prefix(
                                buf@,
                                pos as int,
                                s.first().hash,
                                crate::types::transaction::enc_txout(s.first().output) + (
                                enc_utxo_seq(s.drop_first()) + rest),
                            );
                            crate::codec::lemma_skip_prefix(
                                buf@,
                                pos + 32,
                                crate::types::transaction::enc_txout(s.first().output),
                                enc_utxo_seq(s.drop_first()) + rest,
                            );
                            lemma_utxo_tail_wf(s);
                            assert(buf@.subrange(pos as int, pos + 32) =~= s.first().hash);
                            assert(prepended@ =~= unmarked(s));
                        }
                    }
                    Some((prepended, p2))
                },
            }
        },
    }
}

/// The tail of a well-formed entry list is well formed.
proof fn lemma_utxo_tail_wf(s: Seq<UtxoEntryV>)
    requires
        s.len() > 0,
        wf_utxo_seq(s),
    ensures
        wf_utxo_seq(s.drop_first()),
{
    assert forall|i: int, j: int| 0 <= i < j < s.drop_first().len() implies (
    #[trigger] s.drop_first()[i]).hash != (#[trigger] s.drop_first()[j]).hash by {
        assert(s.drop_first()[i] == s[i + 1]);
        assert(s.drop_first()[j] == s[j + 1]);
    }
    assert forall|i: int| 0 <= i < s.drop_first().len() implies (
    #[trigger] s.drop_first()[i]).hash.len() == 32 by {
        assert(s.drop_first()[i] == s[i + 1]);
    }
}

/// Splitting the encoding of a non-empty UTXO entry list at its first
/// element.
proof fn lemma_utxo_seq_head(b: Seq<u8>, pos: int, s: Seq<UtxoEntryV>, rest: Seq<u8>)
    requires
        0 <= pos <= b.len(),
        s.len() > 0,
        wf_utxo_seq(s),
        b.skip(pos) == enc_utxo_seq(s) + rest,
    ensures
        s.first().hash.len() == 32,
        b.len() >= pos + 32,
        b.subrange(pos, pos + 32) == s.first().hash,
        b.skip(pos) == s.first().hash + (crate::types::transaction::enc_txout(s.first().output) + (
        enc_utxo_seq(s.drop_first()) + rest)),
        enc_utxo_seq(s).len() == 32 + crate::types::transaction::enc_txout(s.first().output).len()
            + enc_utxo_seq(s.drop_first()).len(),
{
    assert(s[0].hash.len() == 32);
    assert(enc_utxo_seq(s) == enc_utxo_entry(s.first()) + enc_utxo_seq(s.drop_first()));
    assert(b.skip(pos).len() == b.len() - pos);
    assert(b.skip(pos) =~= s.first().hash + (crate::types::transaction::enc_txout(s.first().output)
        + (enc_utxo_seq(s.drop_first()) + rest)));
    assert forall|j: int| 0 <= j < 32 implies #[trigger] b.subrange(pos, pos + 32)[j]
        == s.first().hash[j] by {
        assert(b.subrange(pos, pos + 32)[j] == b.skip(pos)[j]);
    }
    assert(b.subrange(pos, pos + 32) =~= s.first().hash);
}

/// A first non-qualifying position pins down `insert_pos`.
proof fn lemma_insert_pos_at(m: Seq<MempoolEntryV>, fee: u64, pos: int)
    requires
        0 <= pos <= m.len(),
        forall|a: int| 0 <= a < pos ==> (#[trigger] m[a]).fee >= fee,
        pos < m.len() ==> m[pos].fee < fee,
    ensures
        insert_pos(m, fee) == pos,
    decreases pos,
{
    if pos == 0 {
        if m.len() > 0 && m.first().fee >= fee {
        }
    } else {
        assert(m.first().fee >= fee);
        lemma_insert_pos_at(m.drop_first(), fee, pos - 1);
        assert forall|a: int| 0 <= a < pos - 1 implies (#[trigger] m.drop_first()[a]).fee >= fee by {
            assert(m.drop_first()[a] == m[a + 1]);
        }
    }
}

/// A match at a position after all non-matches pins down `find_producer`.
proof fn lemma_find_producer_at(m: Seq<MempoolEntryV>, h: Seq<u8>, i: int)
    requires
        0 <= i < m.len(),
        tx_has_output_hash(m[i].tx, h),
        forall|j: int| 0 <= j < i ==> !tx_has_output_hash((#[trigger] m[j]).tx, h),
    ensures
        find_producer(m, h) == i,
    decreases i,
{
    if i == 0 {
    } else {
        assert(!tx_has_output_hash(m.first().tx, h));
        lemma_find_producer_at(m.drop_first(), h, i - 1);
        assert forall|j: int| 0 <= j < i - 1 implies !tx_has_output_hash(
            (#[trigger] m.drop_first()[j]).tx,
            h,
        ) by {
            assert(m.drop_first()[j] == m[j + 1]);
        }
    }
}

/// Scaling by at least four ideal intervals pushes the quotient to or past
/// the four-fold clamp.
proof fn lemma_q_over_hi(t: int, elapsed: int, ideal: int)
    requires
        t >= 0,
        ideal > 0,
        elapsed >= 4 * ideal,
    ensures
        (t * elapsed) / ideal >= t * 4,
{
    assert(t * elapsed >= t * (4 * ideal)) by (nonlinear_arith)
        requires
            t >= 0,
            elapsed >= 4 * ideal,
    ;
    assert(t * (4 * ideal) == (t * 4) * ideal) by (nonlinear_arith);
    vstd::arithmetic::div_mod::lemma_div_is_ordered(t * 4 * ideal, t * elapsed, ideal);
    vstd::arithmetic::div_mod::lemma_fundamental_div_mod_converse(t * 4 * ideal, ideal, t * 4, 0);
}

} // verus!
