//! The node's message handler: a pure decision function from ledger state
//! and one incoming message to the next state and the action the
//! connection loop performs.
use crate::network::{Message, MessageV};
use crate::types::block::{
    all_present, distinct_out_hashes, distinct_prevs, fees_ok, header_hash, in_values_sum,
    inputs_of, miner_fee, non_coinbase, out_values_sum, outputs_of, reward_of, Block, BlockHeader,
    BlockV,
};
use crate::types::blockchain::{
    add_verdict, admit_at, evict_mined, replay, retarget_value, zero_hash, Blockchain, ChainV,
    MempoolEntryV,
};
use crate::types::transaction::{Transaction, TransactionOutput, TxOutV};
use crate::types::utxo::UtxoEntryV;
use vstd::prelude::*;

verus! {

/// What the connection loop does after one message is handled.
pub enum NodeAction {
    /// Send this reply on the same connection.
    Reply(Message),
    /// Send this message to every known peer.
    Broadcast(Message),
    /// Close the connection.
    Close,
    /// Keep the connection open and wait for the next message.
    Ignore,
}

/// The outputs paying a key, in entry order, with their marks, as a UTXO
/// query returns them.
pub open spec fn utxos_for(u: Seq<UtxoEntryV>, pk: Seq<u8>) -> Seq<(TxOutV, bool)>
    decreases u.len(),
{
    if u.len() == 0 {
        Seq::empty()
    } else {
        let rest = utxos_for(u.drop_first(), pk);
        if u.first().output.pubkey == pk {
            seq![(u.first().output, u.first().marked)] + rest
        } else {
            rest
        }
    }
}

/// Appending one entry to a key query.
pub proof fn lemma_utxos_for_snoc(u: Seq<UtxoEntryV>, e: UtxoEntryV, pk: Seq<u8>)
    ensures
        utxos_for(u.push(e), pk) == utxos_for(u, pk) + (if e.output.pubkey == pk {
            seq![(e.output, e.marked)]
        } else {
            Seq::<(TxOutV, bool)>::empty()
        }),
    decreases u.len(),
{
    if u.len() == 0 {
        assert(u.push(e).first() == e);
        assert(u.push(e).drop_first() =~= Seq::<UtxoEntryV>::empty());
        assert(utxos_for(Seq::<UtxoEntryV>::empty(), pk) == Seq::<(TxOutV, bool)>::empty());
        assert(utxos_for(u, pk) == Seq::<(TxOutV, bool)>::empty());
        if e.output.pubkey == pk {
            assert(utxos_for(u.push(e), pk) =~= utxos_for(u, pk) + seq![(e.output, e.marked)]);
        } else {
            assert(utxos_for(u.push(e), pk) =~= utxos_for(u, pk) + Seq::<(TxOutV, bool)>::empty());
        }
    } else {
        assert(u.push(e).first() == u.first());
        assert(u.push(e).drop_first() =~= u.drop_first().push(e));
        lemma_utxos_for_snoc(u.drop_first(), e, pk);
        if u.first().output.pubkey == pk {
            assert(seq![(u.first().output, u.first().marked)] + (utxos_for(u.drop_first(), pk) + (
            if e.output.pubkey == pk {
                seq![(e.output, e.marked)]
            } else {
                Seq::<(TxOutV, bool)>::empty()
            })) =~= (seq![(u.first().output, u.first().marked)] + utxos_for(u.drop_first(), pk)) + (
            if e.output.pubkey == pk {
                seq![(e.output, e.marked)]
            } else {
                Seq::<(TxOutV, bool)>::empty()
            }));
        }
    }
}

/// The non-coinbase transactions a template takes: the best-fee prefix of
/// the mempool, up to the block transaction cap.
pub open spec fn template_selection(c: ChainV) -> Seq<crate::types::transaction::TxV> {
    c.mempool.take(
        if c.mempool.len() < crate::BLOCK_TRANSACTION_CAP {
            c.mempool.len() as int
        } else {
            crate::BLOCK_TRANSACTION_CAP as int
        },
    ).map_values(|e: MempoolEntryV| e.tx)
}

/// When a template can be assembled: the selection's miner fee is defined
/// against the UTXO set and the coinbase payout fits the 64-bit range.
pub open spec fn template_ok(c: ChainV) -> bool {
    let ins = inputs_of(template_selection(c));
    let outs = outputs_of(template_selection(c));
    &&& all_present(ins, c.utxos)
    &&& distinct_prevs(ins)
    &&& distinct_out_hashes(outs)
    &&& in_values_sum(ins, c.utxos) <= u64::MAX
    &&& out_values_sum(outs) <= in_values_sum(ins, c.utxos)
    &&& reward_of(c.blocks.len()) + (in_values_sum(ins, c.utxos) - out_values_sum(outs))
        <= u64::MAX
}

/// The shape of the template a ledger owes for a key at a time: the
/// fee-ordered mempool prefix behind a coinbase paying the subsidy plus
/// the collected fees, linked to the tip, stamped and targeted.
pub open spec fn template_for(c: ChainV, b: BlockV, pk: Seq<u8>, now: i64, coinbase_id: u128) -> bool {
    &&& b.wf()
    &&& b.header.timestamp == now
    &&& b.header.nonce == 0
    &&& b.header.target == c.target
    &&& b.header.prev == (if c.blocks.len() == 0 {
        zero_hash()
    } else {
        header_hash(c.blocks.last().header)
    })
    &&& b.header.merkle_root == crate::merkle::merkle_root_of(b.txs)
    &&& b.txs.len() >= 1
    &&& b.txs.len() <= 1 + crate::BLOCK_TRANSACTION_CAP
    &&& b.txs[0].inputs.len() == 0
    &&& b.txs[0].outputs =~= seq![
        TxOutV {
            value: (reward_of(c.blocks.len()) + miner_fee(b, c.utxos)) as u64,
            unique_id: coinbase_id,
            pubkey: pk,
        },
    ]
    &&& fees_ok(b, c.utxos)
    &&& non_coinbase(b.txs) == template_selection(c)
}

impl Blockchain {
    /// The outputs paying a key, with their reservation marks.
    pub fn utxos_for_key(&self, pk: &crate::crypto::PublicKey) -> (r: Vec<
        (TransactionOutput, bool),
    >)
        ensures
            r@.map_values(|p: (TransactionOutput, bool)| (p.0@, p.1)) == utxos_for(
                self@.utxos,
                pk@,
            ),
    {
        let ghost uv = self@.utxos;
        let mut out: Vec<(TransactionOutput, bool)> = Vec::new();
        let mut i: usize = 0;
        let n = self.utxos().len();
        proof {
            assert(uv.take(0) =~= Seq::<UtxoEntryV>::empty());
            assert(out@.map_values(|p: (TransactionOutput, bool)| (p.0@, p.1)) =~= Seq::<
                (TxOutV, bool),
            >::empty());
        }
        while i < n
            invariant
                i <= n,
                n == self@.utxos.len(),
                uv == self@.utxos,
                out@.map_values(|p: (TransactionOutput, bool)| (p.0@, p.1)) == utxos_for(
                    uv.take(i as int),
                    pk@,
                ),
            decreases n - i,
        {
            let entry = self.utxos().entry_at(i);
            proof {
                lemma_utxos_for_snoc(uv.take(i as int), uv[i as int], pk@);
                assert(uv.take(i + 1) =~= uv.take(i as int).push(uv[i as int]));
            }
            if entry.output.pubkey.equals(pk) {
                out.push((entry.output.clone(), entry.marked));
                proof {
                    assert(out@.map_values(|p: (TransactionOutput, bool)| (p.0@, p.1))
                        =~= utxos_for(uv.take(i as int), pk@) + seq![
                        (uv[i as int].output, uv[i as int].marked),
                    ]);
                }
            } else {
                proof {
                    assert(out@.map_values(|p: (TransactionOutput, bool)| (p.0@, p.1))
                        =~= utxos_for(uv.take(i + 1), pk@));
                }
            }
            i = i + 1;
        }
        proof {
            assert(uv.take(uv.len() as int) =~= uv);
        }
        out
    }

    /// Assembles a block template paying the key: a coinbase worth the
    /// subsidy plus the fees of up to BLOCK_TRANSACTION_CAP mempool
    /// transactions, stamped with the current time, a zero nonce, the tip
    /// link and the current target. Fails exactly when the mempool
    /// selection's fee is not defined against the current UTXO set or the
    /// payout overflows; in particular, an empty mempool always yields a
    /// coinbase-only template.
    pub fn build_template(&self, pubkey: &crate::crypto::PublicKey, now: i64, coinbase_id: u128) -> (r:
        Option<Block>)
        requires
            self.wf(),
        ensures
            r is Some <==> template_ok(self@),
            r matches Some(b) ==> template_for(self@, b@, pubkey@, now, coinbase_id),
    {
        let ghost mp = self@.mempool;
        let take_n: usize = if self.mempool().len() < crate::BLOCK_TRANSACTION_CAP {
            self.mempool().len()
        } else {
            crate::BLOCK_TRANSACTION_CAP
        };
        let mut picked: Vec<Transaction> = Vec::new();
        let mut i: usize = 0;
        while i < take_n
            invariant
                i <= take_n,
                take_n <= self@.mempool.len(),
                mp == self@.mempool,
                picked@.len() == i,
                self.wf(),
                forall|j: int| 0 <= j < i ==> (#[trigger] picked@[j])@ == mp[j].tx,
            decreases take_n - i,
        {
            picked.push(self.mempool()[i].transaction.clone());
            i = i + 1;
        }
        // a provisional coinbase with value zero fixes the fee computation,
        // which reads only the non-coinbase transactions
        let mut txs: Vec<Transaction> = Vec::new();
        txs.push(
            Transaction {
                inputs: Vec::new(),
                outputs: make_single_output(0, coinbase_id, pubkey.clone()),
            },
        );
        let mut k: usize = 0;
        while k < picked.len()
            invariant
                k <= picked@.len(),
                txs@.len() == 1 + k,
                self.wf(),
                mp == self@.mempool,
                take_n <= mp.len(),
                take_n == picked@.len(),
                forall|j: int| 0 <= j < take_n ==> (#[trigger] picked@[j])@ == mp[j].tx,
                forall|j: int| 0 <= j < k ==> (#[trigger] txs@[j + 1])@ == picked@[j]@,
                txs@[0]@.inputs.len() == 0,
                txs@[0]@.outputs.len() == 1,
            decreases picked@.len() - k,
        {
            txs.push(picked[k].clone());
            k = k + 1;
        }
        let blocks_ref = self.blocks();
        let prev = if blocks_ref.len() == 0 {
            crate::hash::Hash::zero()
        } else {
            proof {
                assert(self@.blocks.last() == blocks_ref@[blocks_ref@.len() - 1]@);
            }
            blocks_ref[blocks_ref.len() - 1].header.hash()
        };
        let ghost prov_txs = txs@.map_values(|t: Transaction| t@);
        proof {
            assert(non_coinbase(prov_txs) =~= template_selection(self@)) by {
                assert forall|j: int|
                    0 <= j < take_n implies #[trigger] non_coinbase(prov_txs)[j] == mp[j].tx by {
                    assert(non_coinbase(prov_txs)[j] == prov_txs[j + 1]);
                    assert(prov_txs[j + 1] == txs@[j + 1]@);
                }
            }
        }
        let provisional = Block {
            header: BlockHeader {
                timestamp: now,
                nonce: 0,
                prev_block_hash: prev.clone(),
                merkle_root: crate::merkle::MerkleRoot::from_hash(crate::hash::Hash::zero()),
                target: self.target(),
            },
            transactions: txs,
        };
        proof {
            assert(provisional@.txs == prov_txs);
        }
        let fee = match provisional.calculate_miner_fees(self.utxos()) {
            Ok(f) => f,
            Err(_) => {
                proof {
                    assert(!template_ok(self@)) by {
                        if template_ok(self@) {
                            assert(fees_ok(provisional@, self@.utxos));
                        }
                    }
                }
                return None;
            },
        };
        let reward = self.calculate_block_reward();
        let mut final_txs: Vec<Transaction> = Vec::new();
        proof {
            crate::types::block::lemma_in_sum_nonneg(
                crate::types::block::inputs_of(
                    crate::types::block::non_coinbase(provisional@.txs),
                ),
                self@.utxos,
            );
            crate::types::block::lemma_out_sum_nonneg(
                crate::types::block::outputs_of(
                    crate::types::block::non_coinbase(provisional@.txs),
                ),
            );
        }
        if fee > u64::MAX - reward {
            proof {
                assert(!template_ok(self@)) by {
                    assert(miner_fee(provisional@, self@.utxos) == in_values_sum(
                        inputs_of(template_selection(self@)),
                        self@.utxos,
                    ) - out_values_sum(outputs_of(template_selection(self@))));
                }
            }
            return None;
        }
        let coinbase_value: u64 = reward + fee;
        final_txs.push(
            Transaction {
                inputs: Vec::new(),
                outputs: make_single_output(coinbase_value, coinbase_id, pubkey.clone()),
            },
        );
        let mut k2: usize = 0;
        let ghost pickedv = picked@.map_values(|t: Transaction| t@);
        while k2 < picked.len()
            invariant
                k2 <= picked@.len(),
                self.wf(),
                mp == self@.mempool,
                take_n <= mp.len(),
                take_n == picked@.len(),
                take_n <= crate::BLOCK_TRANSACTION_CAP,
                take_n == (if mp.len() < crate::BLOCK_TRANSACTION_CAP {
                    mp.len() as int
                } else {
                    crate::BLOCK_TRANSACTION_CAP as int
                }),
                pickedv == picked@.map_values(|t: Transaction| t@),
                forall|j: int| 0 <= j < take_n ==> pickedv[j] == (#[trigger] mp[j]).tx,
                provisional@.txs.len() == 1 + take_n,
                non_coinbase(provisional@.txs) == template_selection(self@),
                forall|j: int|
                    0 <= j < take_n ==> (#[trigger] provisional@.txs[j + 1]) == pickedv[j],
                crate::types::block::fees_ok(provisional@, self@.utxos),
                fee == crate::types::block::miner_fee(provisional@, self@.utxos),
                fee <= u64::MAX - reward,
                reward == reward_of(self@.blocks.len()),
                coinbase_value == reward + fee,
                prev@ == (if self@.blocks.len() == 0 {
                    zero_hash()
                } else {
                    header_hash(self@.blocks.last().header)
                }),
                final_txs@.len() == 1 + k2,
                forall|j: int| 0 <= j < k2 ==> (#[trigger] final_txs@[j + 1])@ == pickedv[j],
                final_txs@[0]@.inputs.len() == 0,
                final_txs@[0]@.outputs =~= seq![
                    TxOutV { value: coinbase_value, unique_id: coinbase_id, pubkey: pubkey@ },
                ],
            decreases picked@.len() - k2,
        {
            final_txs.push(picked[k2].clone());
            k2 = k2 + 1;
        }
        let ghost ftv = final_txs@.map_values(|t: Transaction| t@);
        proof {
            assert forall|j: int| 1 <= j < ftv.len() implies #[trigger] ftv[j] == pickedv[j - 1] by {
                assert((final_txs@[(j - 1) + 1])@ == pickedv[j - 1]);
                assert(final_txs@[j]@ == pickedv[j - 1]);
            }
        }
        let merkle = crate::merkle::MerkleRoot::calculate(&final_txs);
        let header = BlockHeader {
            timestamp: now,
            nonce: 0,
            prev_block_hash: prev,
            merkle_root: merkle,
            target: self.target(),
        };
        let b = Block { header, transactions: final_txs };
        proof {
            assert(b@.txs == ftv);
            assert(template_ok(self@)) by {
                assert(miner_fee(provisional@, self@.utxos) == in_values_sum(
                    inputs_of(template_selection(self@)),
                    self@.utxos,
                ) - out_values_sum(outputs_of(template_selection(self@))));
            }
        }
        proof {
            assert(crate::types::block::non_coinbase(b@.txs) =~= mp.take(take_n as int).map_values(
                |e: crate::types::blockchain::MempoolEntryV| e.tx,
            ));
            assert(crate::types::block::non_coinbase(provisional@.txs) =~= crate::types::block::non_coinbase(
                b@.txs,
            ));
            assert(b@.txs[0].outputs =~= seq![
                TxOutV { value: coinbase_value, unique_id: coinbase_id, pubkey: pubkey@ },
            ]);
            assert(b@.wf()) by {
                assert forall|j: int| 0 <= j < b@.txs.len() implies (#[trigger] b@.txs[j]).wf() by {
                    if j == 0 {
                        assert(b@.txs[0].inputs.len() == 0);
                    } else {
                        assert(b@.txs[j] == ftv[j]);
                        assert(ftv[j] == pickedv[j - 1]);
                        assert(b@.txs[j] == mp[j - 1].tx);
                    }
                }
            }
        }
        Some(b)
    }
}

impl Blockchain {
    /// Handles one incoming message: queries read the ledger and reply,
    /// submissions mutate it, reply variants arriving unsolicited close
    /// the connection. `peers` is the known peer list, `now` stamps
    /// admissions and templates, `coinbase_id` freshens a template's
    /// coinbase output.
    #[verifier::rlimit(100)]
    pub fn handle_message(
        &mut self,
        msg: Message,
        peers: Vec<String>,
        now: i64,
        coinbase_id: u128,
    ) -> (r: NodeAction)
        requires
            old(self).wf(),
            msg@.wf(),
        ensures
            final(self).wf(),
            match msg@ {
                MessageV::FetchBlock(h) => final(self)@ == old(self)@ && (if h
                    < old(self)@.blocks.len() {
                    r matches NodeAction::Reply(m) && m@ == MessageV::NewBlock(
                        old(self)@.blocks[h as int],
                    )
                } else {
                    r is Close
                }),
                MessageV::DiscoverNodes => final(self)@ == old(self)@ && (r matches NodeAction::Reply(m)
                    && m@ == MessageV::NodeList(peers@.map_values(|p: String| p@))),
                MessageV::AskDifference(h) => final(self)@ == old(self)@ && (r matches NodeAction::Reply(m)
                    && m@ matches MessageV::Difference(d) && d as int == clamp_i32(
                    old(self)@.blocks.len() - h,
                )),
                MessageV::FetchUTXOs(pk) => final(self)@ == old(self)@ && (r matches NodeAction::Reply(m)
                    && m@ == MessageV::UTXOs(utxos_for(old(self)@.utxos, pk))),
                MessageV::NewBlock(bv) => r is Ignore && post_add(old(self)@, bv, final(self)@),
                MessageV::NewTransaction(tv) => exists|t: i64|
                    final(self)@ == (#[trigger] admit_at(old(self)@, tv, t)).0 && (r is Ignore
                        <==> admit_at(old(self)@, tv, t).1 is Ok) && (r is Close <==> admit_at(
                        old(self)@,
                        tv,
                        t,
                    ).1 is Err),
                MessageV::SubmitTransaction(tv) => exists|t: i64|
                    {
                        &&& final(self)@ == (#[trigger] admit_at(old(self)@, tv, t)).0
                        &&& (admit_at(old(self)@, tv, t).1 is Ok ==> (r matches NodeAction::Broadcast(m)
                            && m@ == MessageV::NewTransaction(tv)))
                        &&& (admit_at(old(self)@, tv, t).1 is Err ==> r is Close)
                    },
                MessageV::ValidateTemplate(bv) => final(self)@ == old(self)@ && (r matches NodeAction::Reply(m)
                    && m@ == MessageV::TemplateValidity(
                    bv.header.prev == (if old(self)@.blocks.len() == 0 {
                        zero_hash()
                    } else {
                        header_hash(old(self)@.blocks.last().header)
                    }),
                )),
                MessageV::SubmitTemplate(bv) => if add_verdict(old(self)@, bv) is Ok {
                    (r matches NodeAction::Broadcast(m) && m@ == MessageV::NewBlock(bv)) && (exists|
                        mid: ChainV,
                    |
                        {
                            &&& #[trigger] post_add(old(self)@, bv, mid)
                            &&& final(self)@.blocks == mid.blocks
                            &&& final(self)@.target == mid.target
                            &&& final(self)@.mempool == mid.mempool
                            &&& final(self)@.utxos == replay(mid.utxos, mid.blocks)
                        })
                } else {
                    r is Close && final(self)@ == old(self)@
                },
                MessageV::Template(_) => final(self)@ == old(self)@ && r is Close,
                MessageV::TemplateValidity(_) => final(self)@ == old(self)@ && r is Close,
                MessageV::Difference(_) => final(self)@ == old(self)@ && r is Close,
                MessageV::UTXOs(_) => final(self)@ == old(self)@ && r is Close,
                MessageV::NodeList(_) => final(self)@ == old(self)@ && r is Close,
                MessageV::FetchTemplate(pk) => final(self)@ == old(self)@ && (if template_ok(
                    old(self)@,
                ) {
                    r matches NodeAction::Reply(m) && (m@ matches MessageV::Template(bv)
                        && template_for(old(self)@, bv, pk, now, coinbase_id))
                } else {
                    r is Close
                }),
            },
    {
        match msg {
            Message::FetchBlock(h) => {
                if h < self.blocks().len() {
                    let b = self.blocks()[h].clone();
                    NodeAction::Reply(Message::NewBlock(b))
                } else {
                    NodeAction::Close
                }
            },
            Message::DiscoverNodes => {
                NodeAction::Reply(Message::NodeList(peers))
            },
            Message::AskDifference(h) => {
                let len = self.block_height();
                let diff: i128 = (len as i128) - (h as i128);
                let d: i32 = if diff > 0x7FFF_FFFFi128 {
                    0x7FFF_FFFFi32
                } else if diff < -0x8000_0000i128 {
                    -0x8000_0000i32
                } else {
                    diff as i32
                };
                NodeAction::Reply(Message::Difference(d))
            },
            Message::FetchUTXOs(pk) => {
                let list = self.utxos_for_key(&pk);
                NodeAction::Reply(Message::UTXOs(list))
            },
            Message::NewBlock(b) => {
                self.accept_gossiped_block(b)
            },
            Message::NewTransaction(tx) => {
                match self.add_to_mempool(tx) {
                    Ok(_) => NodeAction::Ignore,
                    Err(_) => NodeAction::Close,
                }
            },
            Message::SubmitTransaction(tx) => {
                let ghost tv = tx@;
                match self.add_to_mempool(tx.clone()) {
                    Ok(_) => NodeAction::Broadcast(Message::NewTransaction(tx)),
                    Err(_) => NodeAction::Close,
                }
            },
            Message::ValidateTemplate(b) => {
                let blocks_ref = self.blocks();
                let tip = if blocks_ref.len() == 0 {
                    let z = crate::hash::Hash::zero();
                    proof {
                        assert(z@ =~= zero_hash());
                    }
                    z
                } else {
                    proof {
                        assert(self@.blocks.last() == blocks_ref@[blocks_ref@.len() - 1]@);
                    }
                    blocks_ref[blocks_ref.len() - 1].header.hash()
                };
                let ok = b.header.prev_block_hash.equals(&tip);
                NodeAction::Reply(Message::TemplateValidity(ok))
            },
            Message::SubmitTemplate(b) => {
                self.accept_submitted_template(b)
            },
            Message::FetchTemplate(pk) => {
                match self.build_template(&pk, now, coinbase_id) {
                    Some(b) => NodeAction::Reply(Message::Template(b)),
                    None => NodeAction::Close,
                }
            },
            Message::UTXOs(_) => NodeAction::Close,
            Message::Template(_) => NodeAction::Close,
            Message::TemplateValidity(_) => NodeAction::Close,
            Message::Difference(_) => NodeAction::Close,
            Message::NodeList(_) => NodeAction::Close,
        }
    }
}

impl Blockchain {
    /// Accepts or rejects a gossiped block; the connection stays open
    /// either way.
    fn accept_gossiped_block(&mut self, b: Block) -> (r: NodeAction)
        requires
            old(self).wf(),
            b@.wf(),
        ensures
            final(self).wf(),
            r is Ignore,
            post_add(old(self)@, b@, final(self)@),
    {
        let ghost bv = b@;
        let outcome = self.add_block(b);
        proof {
            lemma_post_add_cases(old(self)@, bv, self@, outcome);
        }
        NodeAction::Ignore
    }

    /// Accepts a mined template, rebuilds the UTXO index and gossips the
    /// block; a rejected template closes the connection.
    fn accept_submitted_template(&mut self, b: Block) -> (r: NodeAction)
        requires
            old(self).wf(),
            b@.wf(),
        ensures
            final(self).wf(),
            if add_verdict(old(self)@, b@) is Ok {
                (r matches NodeAction::Broadcast(m) && m@ == MessageV::NewBlock(b@)) && (exists|
                    mid: ChainV,
                |
                    {
                        &&& #[trigger] post_add(old(self)@, b@, mid)
                        &&& final(self)@.blocks == mid.blocks
                        &&& final(self)@.target == mid.target
                        &&& final(self)@.mempool == mid.mempool
                        &&& final(self)@.utxos == replay(mid.utxos, mid.blocks)
                    })
            } else {
                r is Close && final(self)@ == old(self)@
            },
    {
        let ghost bv = b@;
        let gossip = b.clone();
        match self.add_block(b) {
            Ok(_) => {
                proof {
                    crate::types::blockchain::lemma_ok_unit(add_verdict(old(self)@, bv));
                    lemma_post_add_cases(
                        old(self)@,
                        bv,
                        self@,
                        Ok::<(), crate::error::BtcError>(()),
                    );
                }
                let ghost mid = self@;
                self.rebuild_utxos();
                proof {
                    assert(post_add(old(self)@, bv, mid));
                }
                NodeAction::Broadcast(Message::NewBlock(gossip))
            },
            Err(_) => NodeAction::Close,
        }
    }
}

/// The peer to sync from: the first peer whose reported chain difference
/// strictly exceeds every earlier report, provided any report is
/// positive; None when no peer is ahead.
pub fn best_peer(diffs: &Vec<i32>) -> (r: Option<usize>)
    ensures
        match r {
            Some(i) => i < diffs@.len() && diffs@[i as int] > 0 && (forall|j: int|
                0 <= j < diffs@.len() ==> #[trigger] diffs@[j] <= diffs@[i as int]) && (forall|
                j: int,
            |
                0 <= j < i ==> #[trigger] diffs@[j] < diffs@[i as int]),
            None => forall|j: int| 0 <= j < diffs@.len() ==> #[trigger] diffs@[j] <= 0,
        },
{
    let mut best: usize = 0;
    let mut best_count: i32 = 0;
    let mut found = false;
    let mut i: usize = 0;
    while i < diffs.len()
        invariant
            i <= diffs@.len(),
            found ==> best < i && diffs@[best as int] == best_count && best_count > 0,
            found ==> forall|j: int| 0 <= j < best ==> #[trigger] diffs@[j] < best_count,
            !found ==> best_count == 0,
            forall|j: int| 0 <= j < i ==> #[trigger] diffs@[j] <= best_count,
        decreases diffs@.len() - i,
    {
        if diffs[i] > best_count {
            best = i;
            best_count = diffs[i];
            found = true;
        }
        i = i + 1;
    }
    if found {
        Some(best)
    } else {
        None
    }
}

/// Difference replies saturate at the signed 32-bit range.
pub open spec fn clamp_i32(v: int) -> int {
    if v > 0x7FFF_FFFF {
        0x7FFF_FFFF
    } else if v < -0x8000_0000 {
        -0x8000_0000
    } else {
        v
    }
}

/// The state after a block was offered: accepted and appended with the
/// mempool purged and the target retargeted, or rejected and unchanged.
pub open spec fn post_add(c: ChainV, b: BlockV, c2: ChainV) -> bool {
    if add_verdict(c, b) is Ok {
        &&& c2.blocks == c.blocks.push(b)
        &&& c2.utxos == c.utxos
        &&& c2.mempool == evict_mined(c.mempool, b)
        &&& c2.target.len() == 32
        &&& crate::numeric::nat_of(c2.target) == retarget_value(
            c.blocks.push(b),
            crate::numeric::nat_of(c.target) as int,
        )
    } else {
        c2 == c
    }
}

/// The ensures of `add_block` establish `post_add` in either case.
proof fn lemma_post_add_cases(
    c: ChainV,
    b: BlockV,
    c2: ChainV,
    outcome: Result<(), crate::error::BtcError>,
)
    requires
        outcome == add_verdict(c, b),
        outcome is Ok ==> c2.blocks == c.blocks.push(b) && c2.utxos == c.utxos && c2.mempool
            == evict_mined(c.mempool, b) && c2.target.len() == 32 && crate::numeric::nat_of(
            c2.target,
        ) == retarget_value(c.blocks.push(b), crate::numeric::nat_of(c.target) as int),
        outcome is Err ==> c2 == c,
    ensures
        post_add(c, b, c2),
{
}

/// A vector holding one output.
fn make_single_output(value: u64, unique_id: u128, pubkey: crate::crypto::PublicKey) -> (r: Vec<
    TransactionOutput,
>)
    ensures
        r@.map_values(|o: TransactionOutput| o@) =~= seq![
            TxOutV { value, unique_id, pubkey: pubkey@ },
        ],
{
    let mut r: Vec<TransactionOutput> = Vec::new();
    r.push(TransactionOutput { value, unique_id, pubkey });
    r
}

} // verus!
