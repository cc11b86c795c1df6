//! The standing guarantees of a well-formed ledger, stated on their own so
//! a reader finds them in one place.
use crate::numeric::nat_of;
use crate::types::block::{
    all_present, coinbase_verdict, distinct_prevs, fees_ok, header_hash, in_values_sum, inputs_of,
    miner_fee, non_coinbase, out_values_sum, outputs_of, reward_of, txs_verdict, BlockV,
};
use crate::types::blockchain::{
    apply_tx, chain_wf, insert_outputs, remove_inputs, ChainV,
};
use crate::types::transaction::{out_hash, TxInV, TxOutV, TxV};
use crate::types::utxo::{
    entry_of, find_key, has_key, lemma_find_key, spec_insert, spec_remove, UtxoEntryV,
};
use vstd::prelude::*;

verus! {

/// The total value the UTXO index stores.
pub open spec fn utxo_sum(u: Seq<UtxoEntryV>) -> int
    decreases u.len(),
{
    if u.len() == 0 {
        0
    } else {
        u.first().output.value + utxo_sum(u.drop_first())
    }
}

/// Dropping one entry subtracts its value.
proof fn lemma_utxo_sum_remove_at(u: Seq<UtxoEntryV>, i: int)
    requires
        0 <= i < u.len(),
    ensures
        utxo_sum(u.remove(i)) == utxo_sum(u) - u[i].output.value,
    decreases i,
{
    if i == 0 {
        assert(u.remove(0) =~= u.drop_first());
    } else {
        assert(u.remove(i).first() == u.first());
        assert(u.remove(i).drop_first() =~= u.drop_first().remove(i - 1));
        lemma_utxo_sum_remove_at(u.drop_first(), i - 1);
        assert(u.drop_first()[i - 1] == u[i]);
    }
}

/// Appending one entry adds its value.
proof fn lemma_utxo_sum_push(u: Seq<UtxoEntryV>, e: UtxoEntryV)
    ensures
        utxo_sum(u.push(e)) == utxo_sum(u) + e.output.value,
    decreases u.len(),
{
    if u.len() == 0 {
        assert(u.push(e).first() == e);
        assert(u.push(e).drop_first() =~= Seq::<UtxoEntryV>::empty());
        assert(utxo_sum(Seq::<UtxoEntryV>::empty()) == 0);
        assert(utxo_sum(u) == 0);
    } else {
        assert(u.push(e).first() == u.first());
        assert(u.push(e).drop_first() =~= u.drop_first().push(e));
        lemma_utxo_sum_push(u.drop_first(), e);
    }
}

/// Removing a present key subtracts exactly the stored value.
proof fn lemma_sum_spec_remove(u: Seq<UtxoEntryV>, k: Seq<u8>)
    requires
        has_key(u, k),
    ensures
        utxo_sum(spec_remove(u, k)) == utxo_sum(u) - entry_of(u, k).output.value,
{
    lemma_find_key(u, k);
    lemma_utxo_sum_remove_at(u, find_key(u, k));
}

/// Inserting an absent key adds exactly the new value.
proof fn lemma_sum_spec_insert_fresh(u: Seq<UtxoEntryV>, e: UtxoEntryV)
    requires
        !has_key(u, e.hash),
    ensures
        utxo_sum(spec_insert(u, e)) == utxo_sum(u) + e.output.value,
{
    lemma_utxo_sum_push(u, e);
}

/// Whether each output in turn hashes to a key absent from the index it
/// is inserted into.
pub open spec fn fresh_outputs(u: Seq<UtxoEntryV>, outs: Seq<TxOutV>) -> bool
    decreases outs.len(),
{
    if outs.len() == 0 {
        true
    } else {
        &&& !has_key(u, out_hash(outs.first()))
        &&& fresh_outputs(
            spec_insert(
                u,
                UtxoEntryV { hash: out_hash(outs.first()), marked: false, output: outs.first() },
            ),
            outs.drop_first(),
        )
    }
}

/// Removal acts per key with first-match semantics: every other first
/// match survives with its entry.
proof fn lemma_remove_other_keys(u: Seq<UtxoEntryV>, k0: Seq<u8>, k: Seq<u8>)
    requires
        k != k0,
    ensures
        has_key(spec_remove(u, k0), k) == has_key(u, k),
        has_key(u, k) ==> entry_of(spec_remove(u, k0), k) == entry_of(u, k),
    decreases u.len(),
{
    lemma_find_key(u, k0);
    lemma_find_key(u, k);
    let t = spec_remove(u, k0);
    if has_key(u, k0) {
        let fi = find_key(u, k0);
        if has_key(u, k) {
            let i = find_key(u, k);
            assert(i != fi);
            if i < fi {
                assert(t[i] == u[i]);
                assert forall|j: int| 0 <= j < i implies (#[trigger] t[j]).hash != k by {
                    assert(t[j] == u[j]);
                }
                crate::types::utxo::lemma_find_key_at(t, k, i);
            } else {
                assert(t[i - 1] == u[i]);
                assert forall|j: int| 0 <= j < i - 1 implies (#[trigger] t[j]).hash != k by {
                    if j < fi {
                        assert(t[j] == u[j]);
                    } else {
                        assert(t[j] == u[j + 1]);
                    }
                }
                crate::types::utxo::lemma_find_key_at(t, k, i - 1);
            }
        } else {
            lemma_find_key(t, k);
            if has_key(t, k) {
                let i = find_key(t, k);
                if i < fi {
                    assert(t[i] == u[i]);
                } else {
                    assert(t[i] == u[i + 1]);
                }
                assert(false);
            }
        }
    }
}

/// Insertion of an absent key keeps every other first match with its
/// entry, and adds the new key.
proof fn lemma_insert_fresh_keys(u: Seq<UtxoEntryV>, e: UtxoEntryV, k: Seq<u8>)
    requires
        !has_key(u, e.hash),
    ensures
        k != e.hash ==> has_key(spec_insert(u, e), k) == has_key(u, k),
        k != e.hash && has_key(u, k) ==> entry_of(spec_insert(u, e), k) == entry_of(u, k),
        has_key(spec_insert(u, e), e.hash),
{
    crate::types::utxo::lemma_find_key_push(u, e, k);
    crate::types::utxo::lemma_find_key_push(u, e, e.hash);
    lemma_find_key(u, k);
    lemma_find_key(u, e.hash);
    let t = spec_insert(u, e);
    if k != e.hash && has_key(u, k) {
        assert(t[find_key(u, k)] == u[find_key(u, k)]);
    }
}

/// Two indexes agreeing on every consumed entry value the same inputs the
/// same.
proof fn lemma_in_sum_agree(ins: Seq<TxInV>, u1: Seq<UtxoEntryV>, u2: Seq<UtxoEntryV>)
    requires
        forall|i: int|
            0 <= i < ins.len() ==> entry_of(u1, (#[trigger] ins[i]).prev).output == entry_of(
                u2,
                ins[i].prev,
            ).output,
    ensures
        in_values_sum(ins, u1) == in_values_sum(ins, u2),
    decreases ins.len(),
{
    if ins.len() > 0 {
        lemma_in_sum_agree(ins.drop_first(), u1, u2);
        assert(ins.drop_first().len() == ins.len() - 1);
        assert forall|i: int| 0 <= i < ins.drop_first().len() implies entry_of(
            u1,
            (#[trigger] ins.drop_first()[i]).prev,
        ).output == entry_of(u2, ins.drop_first()[i].prev).output by {
            assert(ins.drop_first()[i] == ins[i + 1]);
        }
    }
}

/// Consuming distinct present inputs subtracts exactly their valued sum
/// and touches no other key.
proof fn lemma_sum_remove_inputs(u: Seq<UtxoEntryV>, ins: Seq<TxInV>)
    requires
        crate::types::block::all_present(ins, u),
        crate::types::block::distinct_prevs(ins),
    ensures
        utxo_sum(remove_inputs(u, ins)) == utxo_sum(u) - in_values_sum(ins, u),
        forall|k: Seq<u8>|
            (forall|i: int| 0 <= i < ins.len() ==> (#[trigger] ins[i]).prev != k) ==> (#[trigger] has_key(
                remove_inputs(u, ins),
                k,
            ) == has_key(u, k) && (has_key(u, k) ==> entry_of(remove_inputs(u, ins), k)
                == entry_of(u, k))),
    decreases ins.len(),
{
    if ins.len() > 0 {
        let k0 = ins.first().prev;
        let u1 = spec_remove(u, k0);
        assert(has_key(u, k0));
        lemma_sum_spec_remove(u, k0);
        assert forall|i: int| 0 <= i < ins.drop_first().len() implies has_key(
            u1,
            (#[trigger] ins.drop_first()[i]).prev,
        ) && entry_of(u1, ins.drop_first()[i].prev).output == entry_of(
            u,
            ins.drop_first()[i].prev,
        ).output by {
            assert(ins.drop_first()[i] == ins[i + 1]);
            assert(ins[i + 1].prev != k0);
            lemma_remove_other_keys(u, k0, ins[i + 1].prev);
        }
        assert(crate::types::block::distinct_prevs(ins.drop_first())) by {
            assert forall|a: int, b: int| 0 <= a < b < ins.drop_first().len() implies (
            #[trigger] ins.drop_first()[a]).prev != (#[trigger] ins.drop_first()[b]).prev by {
                assert(ins.drop_first()[a] == ins[a + 1]);
                assert(ins.drop_first()[b] == ins[b + 1]);
            }
        }
        lemma_sum_remove_inputs(u1, ins.drop_first());
        lemma_in_sum_agree(ins.drop_first(), u1, u);
        assert forall|k: Seq<u8>|
            (forall|i: int|
                0 <= i < ins.len() ==> (#[trigger] ins[i]).prev != k) implies (#[trigger] has_key(
            remove_inputs(u, ins),
            k,
        ) == has_key(u, k) && (has_key(u, k) ==> entry_of(remove_inputs(u, ins), k) == entry_of(
            u,
            k,
        ))) by {
            assert(ins[0].prev != k);
            lemma_remove_other_keys(u, k0, k);
            assert forall|i: int| 0 <= i < ins.drop_first().len() implies (
            #[trigger] ins.drop_first()[i]).prev != k by {
                assert(ins.drop_first()[i] == ins[i + 1]);
            }
        }
    } else {
        assert(remove_inputs(u, ins) == u);
    }
}

/// Inserting fresh outputs adds exactly their value and keeps every
/// already-present key with its entry.
proof fn lemma_sum_insert_outputs(u: Seq<UtxoEntryV>, outs: Seq<TxOutV>)
    requires
        fresh_outputs(u, outs),
    ensures
        utxo_sum(insert_outputs(u, outs)) == utxo_sum(u) + out_values_sum(outs),
        forall|k: Seq<u8>|
            #[trigger] has_key(u, k) ==> has_key(insert_outputs(u, outs), k) && entry_of(
                insert_outputs(u, outs),
                k,
            ) == entry_of(u, k),
    decreases outs.len(),
{
    if outs.len() > 0 {
        let e = UtxoEntryV {
            hash: out_hash(outs.first()),
            marked: false,
            output: outs.first(),
        };
        lemma_sum_spec_insert_fresh(u, e);
        lemma_sum_insert_outputs(spec_insert(u, e), outs.drop_first());
        assert forall|k: Seq<u8>| #[trigger] has_key(u, k) implies has_key(
            insert_outputs(u, outs),
            k,
        ) && entry_of(insert_outputs(u, outs), k) == entry_of(u, k) by {
            assert(k != e.hash);
            lemma_insert_fresh_keys(u, e, k);
        }
    } else {
        assert(insert_outputs(u, outs) == u);
    }
}

/// One transaction whose inputs consume distinct present outputs and
/// whose outputs are fresh moves the stored total by exactly what it
/// creates minus what it consumes; every key it does not consume keeps
/// its entry.
pub proof fn law_tx_conservation(u: Seq<UtxoEntryV>, t: TxV)
    requires
        crate::types::block::all_present(t.inputs, u),
        crate::types::block::distinct_prevs(t.inputs),
        fresh_outputs(remove_inputs(u, t.inputs), t.outputs),
    ensures
        utxo_sum(apply_tx(u, t)) == utxo_sum(u) - in_values_sum(t.inputs, u) + out_values_sum(
            t.outputs,
        ),
        forall|k: Seq<u8>|
            (forall|i: int| 0 <= i < t.inputs.len() ==> (#[trigger] t.inputs[i]).prev != k)
                && #[trigger] has_key(u, k) ==> has_key(apply_tx(u, t), k) && entry_of(
                apply_tx(u, t),
                k,
            ) == entry_of(u, k),
{
    lemma_sum_remove_inputs(u, t.inputs);
    lemma_sum_insert_outputs(remove_inputs(u, t.inputs), t.outputs);
    assert forall|k: Seq<u8>|
        (forall|i: int| 0 <= i < t.inputs.len() ==> (#[trigger] t.inputs[i]).prev != k)
            && #[trigger] has_key(u, k) implies has_key(apply_tx(u, t), k) && entry_of(
        apply_tx(u, t),
        k,
    ) == entry_of(u, k) by {
        assert(has_key(remove_inputs(u, t.inputs), k) == has_key(u, k));
        assert(has_key(remove_inputs(u, t.inputs), k));
    }
}

/// Whether every output of every transaction in turn hashes to a key
/// absent from the index it lands in.
pub open spec fn fresh_txs(u: Seq<UtxoEntryV>, txs: Seq<TxV>) -> bool
    decreases txs.len(),
{
    if txs.len() == 0 {
        true
    } else {
        &&& fresh_outputs(remove_inputs(u, txs.first().inputs), txs.first().outputs)
        &&& fresh_txs(apply_tx(u, txs.first()), txs.drop_first())
    }
}

/// A transaction list whose combined inputs are distinct and present, and
/// whose outputs are fresh, moves the stored total by what it creates
/// minus what it consumes, all valued against the starting index.
proof fn lemma_txs_conservation(u: Seq<UtxoEntryV>, txs: Seq<TxV>)
    requires
        crate::types::block::all_present(inputs_of(txs), u),
        crate::types::block::distinct_prevs(inputs_of(txs)),
        fresh_txs(u, txs),
    ensures
        utxo_sum(crate::types::blockchain::apply_txs(u, txs)) == utxo_sum(u) - in_values_sum(
            inputs_of(txs),
            u,
        ) + out_values_sum(crate::types::block::outputs_of(txs)),
    decreases txs.len(),
{
    if txs.len() > 0 {
        let t0 = txs.first();
        let flat = inputs_of(txs);
        let rest = txs.drop_first();
        let flat_rest = inputs_of(rest);
        assert(flat == t0.inputs + flat_rest);
        assert(all_present(t0.inputs, u) && distinct_prevs(t0.inputs)) by {
            assert forall|i: int| 0 <= i < t0.inputs.len() implies has_key(
                u,
                (#[trigger] t0.inputs[i]).prev,
            ) by {
                assert(t0.inputs[i] == flat[i]);
            }
            assert forall|a: int, b: int| 0 <= a < b < t0.inputs.len() implies (
            #[trigger] t0.inputs[a]).prev != (#[trigger] t0.inputs[b]).prev by {
                assert(t0.inputs[a] == flat[a]);
                assert(t0.inputs[b] == flat[b]);
            }
        }
        law_tx_conservation(u, t0);
        let u1 = apply_tx(u, t0);
        assert forall|i: int| 0 <= i < flat_rest.len() implies has_key(
            u1,
            (#[trigger] flat_rest[i]).prev,
        ) && entry_of(u1, flat_rest[i].prev).output == entry_of(u, flat_rest[i].prev).output by {
            assert(flat_rest[i] == flat[t0.inputs.len() + i]);
            assert(has_key(u, flat_rest[i].prev));
            assert forall|a: int| 0 <= a < t0.inputs.len() implies (#[trigger] t0.inputs[a]).prev
                != flat_rest[i].prev by {
                assert(t0.inputs[a] == flat[a]);
            }
        }
        assert(distinct_prevs(flat_rest)) by {
            assert forall|a: int, b: int| 0 <= a < b < flat_rest.len() implies (
            #[trigger] flat_rest[a]).prev != (#[trigger] flat_rest[b]).prev by {
                assert(flat_rest[a] == flat[t0.inputs.len() + a]);
                assert(flat_rest[b] == flat[t0.inputs.len() + b]);
            }
        }
        lemma_txs_conservation(u1, rest);
        crate::types::block::lemma_in_sum_concat(t0.inputs, flat_rest, u);
        lemma_in_sum_agree(flat_rest, u1, u);
        crate::types::block::lemma_out_sum_concat(t0.outputs, outputs_of(rest));
        assert(outputs_of(txs) == t0.outputs + outputs_of(rest));
    } else {
        assert(crate::types::blockchain::apply_txs(u, txs) == u);
        assert(in_values_sum(inputs_of(txs), u) == 0);
        assert(out_values_sum(crate::types::block::outputs_of(txs)) == 0);
    }
}

/// A block that passes transaction verification and creates only fresh
/// outputs adds exactly the block subsidy to the stored total.
pub proof fn law_block_conservation(u: Seq<UtxoEntryV>, b: BlockV, height: u64)
    requires
        txs_verdict(b, height, u) is Ok,
        fresh_txs(u, b.txs),
    ensures
        utxo_sum(crate::types::blockchain::apply_txs(u, b.txs)) == utxo_sum(u)
            + crate::types::block::reward_of(height as nat),
{
    let cb = b.txs[0];
    let rest = non_coinbase(b.txs);
    assert(b.txs.len() > 0);
    assert(coinbase_verdict(b, height, u) is Ok);
    assert(fees_ok(b, u));
    assert(cb.inputs.len() == 0);
    assert(out_values_sum(cb.outputs) == reward_of(height as nat) + miner_fee(b, u));
    assert(rest =~= b.txs.drop_first());
    assert(inputs_of(b.txs) =~= inputs_of(rest)) by {
        assert(inputs_of(b.txs) == cb.inputs + inputs_of(b.txs.drop_first()));
        assert(cb.inputs =~= Seq::<TxInV>::empty());
    }
    lemma_txs_conservation(u, b.txs);
    assert(outputs_of(b.txs) == cb.outputs + outputs_of(b.txs.drop_first()));
    crate::types::block::lemma_out_sum_concat(cb.outputs, outputs_of(b.txs.drop_first()));
    assert(miner_fee(b, u) == in_values_sum(inputs_of(rest), u) - out_values_sum(
        outputs_of(rest),
    ));
}

/// Freshness and sequential validity over a whole chain.
pub open spec fn fresh_chain(u: Seq<UtxoEntryV>, blocks: Seq<BlockV>) -> bool
    decreases blocks.len(),
{
    if blocks.len() == 0 {
        true
    } else {
        &&& fresh_txs(u, blocks.first().txs)
        &&& fresh_chain(
            crate::types::blockchain::apply_txs(u, blocks.first().txs),
            blocks.drop_first(),
        )
    }
}

/// Every block passes transaction verification at its height against the
/// replayed index, in order.
pub open spec fn valid_from(u: Seq<UtxoEntryV>, blocks: Seq<BlockV>, height: nat) -> bool
    decreases blocks.len(),
{
    if blocks.len() == 0 {
        true
    } else {
        &&& height <= u64::MAX
        &&& txs_verdict(blocks.first(), height as u64, u) is Ok
        &&& valid_from(
            crate::types::blockchain::apply_txs(u, blocks.first().txs),
            blocks.drop_first(),
            height + 1,
        )
    }
}

/// The block subsidies over a run of heights.
pub open spec fn rewards_sum(height: nat, n: nat) -> int
    decreases n,
{
    if n == 0 {
        0
    } else {
        crate::types::block::reward_of(height) + rewards_sum(height + 1, (n - 1) as nat)
    }
}

/// Replaying a sequentially valid, fresh chain adds exactly the subsidies
/// of its heights.
proof fn lemma_chain_conservation(u: Seq<UtxoEntryV>, blocks: Seq<BlockV>, height: nat)
    requires
        valid_from(u, blocks, height),
        fresh_chain(u, blocks),
    ensures
        utxo_sum(crate::types::blockchain::replay(u, blocks)) == utxo_sum(u) + rewards_sum(
            height,
            blocks.len(),
        ),
    decreases blocks.len(),
{
    if blocks.len() > 0 {
        law_block_conservation(u, blocks.first(), height as u64);
        lemma_chain_conservation(
            crate::types::blockchain::apply_txs(u, blocks.first().txs),
            blocks.drop_first(),
            height + 1,
        );
    }
}

/// Monetary conservation: after replaying from an empty index a chain
/// whose every block passes transaction verification at its height
/// against the replayed index, and whose outputs hash to keys never
/// already present, the stored total is exactly the sum of the block
/// subsidies over the chain's heights.
pub proof fn law_conservation(blocks: Seq<BlockV>)
    requires
        valid_from(Seq::<UtxoEntryV>::empty(), blocks, 0),
        fresh_chain(Seq::<UtxoEntryV>::empty(), blocks),
    ensures
        utxo_sum(crate::types::blockchain::replay(Seq::<UtxoEntryV>::empty(), blocks))
            == rewards_sum(0, blocks.len()),
{
    lemma_chain_conservation(Seq::<UtxoEntryV>::empty(), blocks, 0);
    assert(utxo_sum(Seq::<UtxoEntryV>::empty()) == 0);
}

/// Timestamps strictly increase along any well-formed chain.
pub proof fn law_monotone_time(c: ChainV)
    requires
        chain_wf(c),
    ensures
        forall|i: int|
            0 <= i < c.blocks.len() - 1 ==> (#[trigger] c.blocks[i]).header.timestamp < c.blocks[i
                + 1].header.timestamp,
{
    assert forall|i: int| 0 <= i < c.blocks.len() - 1 implies (
    #[trigger] c.blocks[i]).header.timestamp < c.blocks[i + 1].header.timestamp by {
        assert(c.blocks[(i + 1) - 1].header.timestamp < c.blocks[i + 1].header.timestamp);
    }
}

/// Every block of a well-formed chain links to the hash of the header
/// before it.
pub proof fn law_chain_link(c: ChainV)
    requires
        chain_wf(c),
    ensures
        forall|i: int|
            0 <= i < c.blocks.len() - 1 ==> (#[trigger] c.blocks[i + 1]).header.prev == header_hash(
                c.blocks[i].header,
            ),
{
    assert forall|i: int| 0 <= i < c.blocks.len() - 1 implies (
    #[trigger] c.blocks[i + 1]).header.prev == header_hash(c.blocks[i].header) by {
        assert(c.blocks[i + 1].header.prev == header_hash(c.blocks[(i + 1) - 1].header));
    }
}

/// Every block after the genesis of a well-formed chain hashes at or
/// under its own target.
pub proof fn law_proof_of_work(c: ChainV)
    requires
        chain_wf(c),
    ensures
        forall|i: int|
            1 <= i < c.blocks.len() ==> nat_of(header_hash((#[trigger] c.blocks[i]).header))
                <= nat_of(c.blocks[i].header.target),
{
}

/// Every block after the genesis of a well-formed chain carries the Merkle
/// root of its own transactions.
pub proof fn law_merkle_consistency(c: ChainV)
    requires
        chain_wf(c),
    ensures
        forall|i: int|
            1 <= i < c.blocks.len() ==> (#[trigger] c.blocks[i]).header.merkle_root
                == crate::merkle::merkle_root_of(c.blocks[i].txs),
{
}

/// Within one block that passes transaction verification, no output is
/// consumed by two inputs.
pub proof fn law_no_double_spend_in_block(b: BlockV, height: u64, u: Seq<UtxoEntryV>)
    requires
        txs_verdict(b, height, u) is Ok,
    ensures
        fees_ok(b, u),
        forall|i: int, j: int|
            0 <= i < j < inputs_of(non_coinbase(b.txs)).len() ==> (#[trigger] inputs_of(
                non_coinbase(b.txs),
            )[i]).prev != (#[trigger] inputs_of(non_coinbase(b.txs))[j]).prev,
{
}

} // verus!
