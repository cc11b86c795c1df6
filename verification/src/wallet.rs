//! Wallet logic: balance counting and transaction assembly over UTXO lists
//! fetched from a node.
use crate::crypto::{key_bytes_valid, pubkey_of, sig_valid, PrivateKey, PublicKey};
use crate::error::BtcError;
use crate::types::transaction::{
    out_hash, Transaction, TransactionInput, TransactionOutput, TxOutV,
};
use vstd::prelude::*;

verus! {

/// A key pair named by the files that hold it.
pub struct Key {
    pub public: String,
    pub private: String,
}

/// A contact: a name and the file holding their public key.
pub struct Recipient {
    pub name: String,
    pub key: String,
}

/// How the wallet computes its fee: a constant, or a percentage of the
/// amount sent.
#[derive(Clone, Copy, PartialEq, Eq, Structural)]
pub enum FeeType {
    Fixed,
    Percent,
}

/// A loaded key pair.
pub struct KeyPair {
    pub public: PublicKey,
    pub private: PrivateKey,
}

/// One spendable candidate: the owner's key index, the reservation mark
/// and the output.
pub struct Candidate {
    pub key_index: usize,
    pub marked: bool,
    pub output: TransactionOutput,
}

/// Ghost form of a candidate.
pub ghost struct CandidateV {
    pub key_index: usize,
    pub marked: bool,
    pub output: TxOutV,
}

impl View for Candidate {
    type V = CandidateV;

    open spec fn view(&self) -> CandidateV {
        CandidateV { key_index: self.key_index, marked: self.marked, output: self.output@ }
    }
}

/// The unmarked candidates walked in order until their value reaches what
/// is needed.
pub open spec fn selected(s: Seq<CandidateV>, needed: int) -> Seq<CandidateV>
    decreases s.len(),
{
    if s.len() == 0 || needed <= 0 {
        Seq::empty()
    } else if s.first().marked {
        selected(s.drop_first(), needed)
    } else {
        seq![s.first()] + selected(s.drop_first(), needed - s.first().output.value)
    }
}

/// The value the selection gathers.
pub open spec fn selected_sum(s: Seq<CandidateV>, needed: int) -> int
    decreases s.len(),
{
    if s.len() == 0 || needed <= 0 {
        0
    } else if s.first().marked {
        selected_sum(s.drop_first(), needed)
    } else {
        s.first().output.value + selected_sum(s.drop_first(), needed - s.first().output.value)
    }
}

/// The sum of all candidate values, a bound for overflow reasoning.
pub proof fn lemma_selected_sum_nonneg(s: Seq<CandidateV>, needed: int)
    ensures
        selected_sum(s, needed) >= 0,
    decreases s.len(),
{
    if s.len() > 0 && needed > 0 {
        if s.first().marked {
            lemma_selected_sum_nonneg(s.drop_first(), needed);
        } else {
            lemma_selected_sum_nonneg(s.drop_first(), needed - s.first().output.value);
        }
    }
}

/// Selecting from an appended candidate list.
pub proof fn lemma_selected_snoc(s: Seq<CandidateV>, e: CandidateV, needed: int)
    ensures
        selected(s.push(e), needed) == (if selected_sum(s, needed) >= needed || e.marked {
            selected(s, needed)
        } else {
            selected(s, needed).push(e)
        }),
        selected_sum(s.push(e), needed) == (if selected_sum(s, needed) >= needed || e.marked {
            selected_sum(s, needed)
        } else {
            selected_sum(s, needed) + e.output.value
        }),
    decreases s.len(),
{
    if s.len() == 0 {
        assert(s.push(e).first() == e);
        assert(s.push(e).drop_first() =~= Seq::<CandidateV>::empty());
        assert(selected(s, needed) == Seq::<CandidateV>::empty());
        assert(selected_sum(s, needed) == 0);
        if needed > 0 && !e.marked {
            assert(selected(Seq::<CandidateV>::empty(), needed - e.output.value) == Seq::<
                CandidateV,
            >::empty());
            assert(selected_sum(Seq::<CandidateV>::empty(), needed - e.output.value) == 0);
            assert(selected(s.push(e), needed) =~= selected(s, needed).push(e));
        } else if needed <= 0 {
            assert(selected(s.push(e), needed) =~= selected(s, needed));
        } else {
            assert(selected(Seq::<CandidateV>::empty(), needed) == Seq::<CandidateV>::empty());
            assert(selected_sum(Seq::<CandidateV>::empty(), needed) == 0);
            assert(selected(s.push(e), needed) =~= selected(s, needed));
        }
    } else {
        assert(s.push(e).first() == s.first());
        assert(s.push(e).drop_first() =~= s.drop_first().push(e));
        if needed <= 0 {
            assert(selected(s.push(e), needed) =~= selected(s, needed));
        } else if s.first().marked {
            lemma_selected_snoc(s.drop_first(), e, needed);
        } else {
            lemma_selected_snoc(s.drop_first(), e, needed - s.first().output.value);
            if !(selected_sum(s, needed) >= needed || e.marked) {
                assert(seq![s.first()] + selected(s.drop_first(), needed
                    - s.first().output.value).push(e) =~= (seq![s.first()] + selected(
                    s.drop_first(),
                    needed - s.first().output.value,
                )).push(e));
            }
        }
    }
}

/// The total balance of a candidate list, marked or not, as the wallet
/// shows it.
pub open spec fn total_sum(s: Seq<CandidateV>) -> int
    decreases s.len(),
{
    if s.len() == 0 {
        0
    } else {
        s.first().output.value + total_sum(s.drop_first())
    }
}

proof fn lemma_total_sum_snoc(s: Seq<CandidateV>, e: CandidateV)
    ensures
        total_sum(s.push(e)) == total_sum(s) + e.output.value,
    decreases s.len(),
{
    if s.len() == 0 {
        assert(s.push(e).first() == e);
        assert(s.push(e).drop_first() =~= Seq::<CandidateV>::empty());
        assert(total_sum(Seq::<CandidateV>::empty()) == 0);
        assert(total_sum(s) == 0);
    } else {
        assert(s.push(e).first() == s.first());
        assert(s.push(e).drop_first() =~= s.drop_first().push(e));
        lemma_total_sum_snoc(s.drop_first(), e);
    }
}

/// Sums the value of every candidate output, as the balance display does.
pub fn get_balance(candidates: &Vec<Candidate>) -> (r: u128)
    ensures
        r == total_sum(candidates@.map_values(|c: Candidate| c@)),
{
    let ghost cs = candidates@.map_values(|c: Candidate| c@);
    let mut acc: u128 = 0;
    let mut i: usize = 0;
    proof {
        assert(cs.take(0) =~= Seq::<CandidateV>::empty());
    }
    while i < candidates.len()
        invariant
            i <= candidates@.len(),
            cs == candidates@.map_values(|c: Candidate| c@),
            acc == total_sum(cs.take(i as int)),
            acc <= i * 0xFFFF_FFFF_FFFF_FFFFu128,
        decreases candidates@.len() - i,
    {
        proof {
            lemma_total_sum_snoc(cs.take(i as int), cs[i as int]);
            assert(cs.take(i + 1) =~= cs.take(i as int).push(cs[i as int]));
            assert((i + 1) * 0xFFFF_FFFF_FFFF_FFFFu128 == i * 0xFFFF_FFFF_FFFF_FFFFu128
                + 0xFFFF_FFFF_FFFF_FFFFu128) by (nonlinear_arith);
            vstd::std_specs::vec::axiom_spec_len(candidates);
            assert(i * 0xFFFF_FFFF_FFFF_FFFFu128 <= 0xFFFF_FFFF_FFFF_FFFFu128
                * 0xFFFF_FFFF_FFFF_FFFFu128) by (nonlinear_arith)
                requires
                    i <= 0xFFFF_FFFF_FFFF_FFFFu128,
            ;
        }
        acc = acc + (candidates[i].output.value as u128);
        i = i + 1;
    }
    proof {
        assert(cs.take(cs.len() as int) =~= cs);
    }
    acc
}

/// Whether every key pair's stored public key is the one its private key
/// derives, and every candidate's key index points at the pair whose
/// public key its output pays.
pub open spec fn keys_consistent(keys: Seq<KeyPair>, cs: Seq<CandidateV>) -> bool {
    &&& (forall|i: int|
        0 <= i < keys.len() ==> (#[trigger] keys[i]).public@ == pubkey_of(keys[i].private@))
    &&& (forall|i: int| 0 <= i < cs.len() ==> (#[trigger] cs[i]).key_index < keys.len())
    &&& (forall|i: int|
        0 <= i < cs.len() ==> (#[trigger] cs[i]).output.pubkey == keys[(
        cs[i]).key_index as int].public@)
}

/// What an assembled transaction must be: inputs are the selected
/// candidates in order, each signature verifying under the consumed
/// output's own key; output 0 pays the recipient; a change output to the
/// first key exists exactly when the selection gathered more than needed.
/// InsufficientFunds comes exactly when the walk gathers too little, and
/// InvalidPrivateKey only when an unmarked candidate's key bytes are not a
/// valid scalar.
pub open spec fn assembly_ok(
    keys: Seq<KeyPair>,
    cs: Seq<CandidateV>,
    recipient_pk: Seq<u8>,
    amount: u64,
    fee: u64,
    recipient_uid: u128,
    change_uid: u128,
    r: Result<Transaction, BtcError>,
) -> bool {
    let needed = amount + fee;
    let sel = selected(cs, needed as int);
    let gathered = selected_sum(cs, needed as int);
    match r {
        Ok(tx) => {
            &&& gathered >= needed
            &&& tx@.inputs.len() == sel.len()
            &&& (forall|i: int|
                0 <= i < sel.len() ==> (#[trigger] tx@.inputs[i]).prev == out_hash(sel[i].output)
                    && sig_valid(
                    tx@.inputs[i].sig,
                    out_hash(sel[i].output).reverse(),
                    sel[i].output.pubkey,
                ))
            &&& tx@.outputs.len() == (if gathered > needed {
                2int
            } else {
                1int
            })
            &&& tx@.outputs[0] == (TxOutV {
                value: amount,
                unique_id: recipient_uid,
                pubkey: recipient_pk,
            })
            &&& (gathered > needed ==> tx@.outputs[1] == (TxOutV {
                value: (gathered - needed) as u64,
                unique_id: change_uid,
                pubkey: pubkey_of(keys[0].private@),
            }))
        },
        Err(BtcError::InsufficientFunds) => gathered < needed,
        Err(BtcError::InvalidPrivateKey) => exists|i: int|
            0 <= i < cs.len() && !(#[trigger] cs[i]).marked && !key_bytes_valid(
                keys[cs[i].key_index as int].private@,
            ),
        Err(_) => false,
    }
}

/// Checks the key material first, assembles only when it lines up: each
/// stored public key must be the one its private key derives, and each
/// candidate's key index must point at the key its output pays. None
/// reports exactly a failed check.
pub fn create_transaction_checked(
    keys: &Vec<KeyPair>,
    candidates: &Vec<Candidate>,
    recipient: &PublicKey,
    amount: u64,
    fee: u64,
    recipient_uid: u128,
    change_uid: u128,
) -> (r: Option<Result<Transaction, BtcError>>)
    requires
        keys@.len() > 0,
        amount + fee <= u64::MAX,
    ensures
        r is Some <==> keys_consistent(keys@, candidates@.map_values(|c: Candidate| c@)),
        r matches Some(inner) ==> assembly_ok(
            keys@,
            candidates@.map_values(|c: Candidate| c@),
            recipient@,
            amount,
            fee,
            recipient_uid,
            change_uid,
            inner,
        ),
{
    let ghost cs = candidates@.map_values(|c: Candidate| c@);
    let mut i: usize = 0;
    while i < keys.len()
        invariant
            i <= keys@.len(),
            forall|k: int|
                0 <= k < i ==> (#[trigger] keys@[k]).public@ == pubkey_of(keys@[k].private@),
        decreases keys@.len() - i,
    {
        let derived = keys[i].private.public_key();
        if !keys[i].public.equals(&derived) {
            return None;
        }
        i = i + 1;
    }
    let mut j: usize = 0;
    while j < candidates.len()
        invariant
            j <= candidates@.len(),
            cs == candidates@.map_values(|c: Candidate| c@),
            forall|k: int|
                0 <= k < keys@.len() ==> (#[trigger] keys@[k]).public@ == pubkey_of(
                    keys@[k].private@,
                ),
            forall|k: int| 0 <= k < j ==> (#[trigger] cs[k]).key_index < keys@.len(),
            forall|k: int|
                0 <= k < j ==> (#[trigger] cs[k]).output.pubkey == keys@[(
                cs[k]).key_index as int].public@,
        decreases candidates@.len() - j,
    {
        if candidates[j].key_index >= keys.len() {
            proof {
                assert(cs[j as int] == candidates@[j as int]@);
                assert(!keys_consistent(keys@, cs));
            }
            return None;
        }
        if !candidates[j].output.pubkey.equals(&keys[candidates[j].key_index].public) {
            proof {
                assert(cs[j as int] == candidates@[j as int]@);
                assert((cs[j as int]).output.pubkey != keys@[(
                cs[j as int]).key_index as int].public@);
                assert(!keys_consistent(keys@, cs));
            }
            return None;
        }
        j = j + 1;
    }
    proof {
        assert forall|k: int| 0 <= k < candidates@.len() implies (
        #[trigger] candidates@[k])@.key_index < keys@.len() && (candidates@[k])@.output.pubkey
            == keys@[(candidates@[k])@.key_index as int].public@ by {
            assert(cs[k] == candidates@[k]@);
        }
    }
    Some(
        create_transaction(keys, candidates, recipient, amount, fee, recipient_uid, change_uid),
    )
}

/// Assembles a transaction paying `amount` to the recipient with the given
/// fee: unmarked candidates are consumed in order until they cover
/// `amount + fee`, each signed by the key that owns its output; a change
/// output returns any excess to the first key. Fails with
/// InsufficientFunds when the walk cannot gather enough, and with
/// InvalidPrivateKey when a selected candidate's key bytes are not a
/// valid scalar. Each candidate's key index must point at the key pair
/// whose public key the output pays, and each pair's public key must be
/// the one its private key derives.
pub fn create_transaction(
    keys: &Vec<KeyPair>,
    candidates: &Vec<Candidate>,
    recipient: &PublicKey,
    amount: u64,
    fee: u64,
    recipient_uid: u128,
    change_uid: u128,
) -> (r: Result<Transaction, BtcError>)
    requires
        keys@.len() > 0,
        forall|i: int|
            0 <= i < keys@.len() ==> (#[trigger] keys@[i]).public@ == pubkey_of(
                keys@[i].private@,
            ),
        forall|i: int|
            0 <= i < candidates@.len() ==> (#[trigger] candidates@[i])@.key_index < keys@.len(),
        forall|i: int|
            0 <= i < candidates@.len() ==> (#[trigger] candidates@[i])@.output.pubkey == keys@[(
            candidates@[i])@.key_index as int].public@,
        amount + fee <= u64::MAX,
    ensures
        assembly_ok(
            keys@,
            candidates@.map_values(|c: Candidate| c@),
            recipient@,
            amount,
            fee,
            recipient_uid,
            change_uid,
            r,
        ),
{
    let ghost cs = candidates@.map_values(|c: Candidate| c@);
    let needed: u64 = amount + fee;
    let ghost neededi = needed as int;
    let mut inputs: Vec<TransactionInput> = Vec::new();
    let mut gathered: u128 = 0;
    let mut i: usize = 0;
    proof {
        assert(cs.take(0) =~= Seq::<CandidateV>::empty());
        lemma_selected_sum_nonneg(cs, neededi);
    }
    while i < candidates.len()
        invariant
            i <= candidates@.len(),
            cs == candidates@.map_values(|c: Candidate| c@),
            keys@.len() > 0,
            needed == amount + fee,
            neededi == needed as int,
            forall|k: int|
                0 <= k < candidates@.len() ==> (#[trigger] candidates@[k])@.key_index
                    < keys@.len(),
            forall|k: int|
                0 <= k < keys@.len() ==> (#[trigger] keys@[k]).public@ == pubkey_of(
                    keys@[k].private@,
                ),
            forall|k: int|
                0 <= k < candidates@.len() ==> (#[trigger] candidates@[k])@.output.pubkey == keys@[(
                candidates@[k])@.key_index as int].public@,
            gathered == selected_sum(cs.take(i as int), neededi),
            gathered <= i * 0xFFFF_FFFF_FFFF_FFFFu128,
            inputs@.len() == selected(cs.take(i as int), neededi).len(),
            forall|k: int|
                0 <= k < inputs@.len() ==> {
                    let sel = selected(cs.take(i as int), neededi);
                    (#[trigger] inputs@[k])@.prev == out_hash(sel[k].output) && sig_valid(
                        inputs@[k]@.sig,
                        out_hash(sel[k].output).reverse(),
                        sel[k].output.pubkey,
                    )
                },
        decreases candidates@.len() - i,
    {
        let ghost pre_sel = selected(cs.take(i as int), neededi);
        proof {
            lemma_selected_snoc(cs.take(i as int), cs[i as int], neededi);
            assert(cs.take(i + 1) =~= cs.take(i as int).push(cs[i as int]));
            assert((i + 1) * 0xFFFF_FFFF_FFFF_FFFFu128 == i * 0xFFFF_FFFF_FFFF_FFFFu128
                + 0xFFFF_FFFF_FFFF_FFFFu128) by (nonlinear_arith);
            vstd::std_specs::vec::axiom_spec_len(candidates);
            assert(i * 0xFFFF_FFFF_FFFF_FFFFu128 <= 0xFFFF_FFFF_FFFF_FFFFu128
                * 0xFFFF_FFFF_FFFF_FFFFu128) by (nonlinear_arith)
                requires
                    i <= 0xFFFF_FFFF_FFFF_FFFFu128,
            ;
        }
        let c = &candidates[i];
        if !c.marked && gathered < (needed as u128) {
            let oh = c.output.hash();
            let signature = match crate::crypto::Signature::sign_output(
                &oh,
                &keys[c.key_index].private,
            ) {
                Some(s) => s,
                None => {
                    proof {
                        assert(!cs[i as int].marked && !key_bytes_valid(
                            keys@[cs[i as int].key_index as int].private@,
                        ));
                    }
                    return Err(BtcError::InvalidPrivateKey);
                },
            };
            inputs.push(TransactionInput { prev_transaction_output_hash: oh, signature });
            gathered = gathered + (c.output.value as u128);
        }
        i = i + 1;
    }
    proof {
        assert(cs.take(cs.len() as int) =~= cs);
    }
    if gathered < (needed as u128) {
        return Err(BtcError::InsufficientFunds);
    }
    let mut outputs: Vec<TransactionOutput> = Vec::new();
    outputs.push(
        TransactionOutput { value: amount, unique_id: recipient_uid, pubkey: recipient.clone() },
    );
    if gathered > (needed as u128) {
        let change: u64 = (gathered - (needed as u128)) as u64;
        proof {
            lemma_selected_sum_le(cs, neededi);
        }
        outputs.push(
            TransactionOutput {
                value: change,
                unique_id: change_uid,
                pubkey: keys[0].private.public_key(),
            },
        );
    }
    Ok(Transaction { inputs, outputs })
}

/// The selection gathers less than one step past what it needs, so the
/// change fits in a 64-bit count.
proof fn lemma_selected_sum_le(s: Seq<CandidateV>, needed: int)
    ensures
        needed > 0 ==> selected_sum(s, needed) <= needed - 1 + 0xFFFF_FFFF_FFFF_FFFF,
        needed <= 0 ==> selected_sum(s, needed) == 0,
    decreases s.len(),
{
    if s.len() > 0 && needed > 0 {
        if s.first().marked {
            lemma_selected_sum_le(s.drop_first(), needed);
        } else {
            lemma_selected_sum_le(s.drop_first(), needed - s.first().output.value);
            lemma_selected_sum_nonneg(s.drop_first(), needed - s.first().output.value);
        }
    }
}

} // verus!
