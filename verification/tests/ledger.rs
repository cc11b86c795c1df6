use btclib::crypto::{PrivateKey, PublicKey, Signature};
use btclib::merkle::MerkleRoot;
use btclib::network::Message;
use btclib::types::block::{Block, BlockHeader};
use btclib::types::blockchain::Blockchain;
use btclib::types::transaction::{Transaction, TransactionInput, TransactionOutput};
use btclib::types::utxo::UtxoSet;
use btclib::u256::U256;
use btclib::wallet::{create_transaction_checked, get_balance, Candidate, KeyPair};

fn coinbase_paying(key: &PublicKey, value: u64, uid: u128) -> Transaction {
    Transaction {
        inputs: vec![],
        outputs: vec![TransactionOutput {
            value,
            unique_id: uid,
            pubkey: key.clone(),
        }],
    }
}

fn genesis_block(txs: Vec<Transaction>) -> Block {
    let merkle = MerkleRoot::calculate(&txs);
    Block {
        header: BlockHeader {
            timestamp: 1_000,
            nonce: 0,
            prev_block_hash: btclib::hash::Hash::zero(),
            merkle_root: merkle,
            target: U256::min_target(),
        },
        transactions: txs,
    }
}

#[test]
fn merkle_of_single_transaction_is_its_hash() {
    let key = PrivateKey::new_key().public_key();
    let tx = coinbase_paying(&key, 5_000_000_000, 1);
    let root = MerkleRoot::calculate(&vec![tx.clone()]);
    assert!(root.as_hash().equals(&tx.hash()));
}

#[test]
fn matches_target_compares_numerically() {
    let zero = btclib::hash::Hash::zero();
    let target = U256::min_target();
    assert!(zero.matches_target(&target));
}

#[test]
fn block_reward_halves() {
    let chain = Blockchain::new();
    assert_eq!(chain.calculate_block_reward(), 5_000_000_000);
}

#[test]
fn message_round_trip_identity() {
    let key = PrivateKey::new_key().public_key();
    let tx = coinbase_paying(&key, 7, 9);
    let block = genesis_block(vec![tx.clone()]);
    let samples = vec![
        Message::FetchUTXOs(key.clone()),
        Message::UTXOs(vec![(tx.outputs[0].clone(), true)]),
        Message::SubmitTransaction(tx.clone()),
        Message::NewTransaction(tx.clone()),
        Message::FetchTemplate(key.clone()),
        Message::Template(block.clone()),
        Message::ValidateTemplate(block.clone()),
        Message::TemplateValidity(true),
        Message::SubmitTemplate(block.clone()),
        Message::DiscoverNodes,
        Message::NodeList(vec![String::from("127.0.0.1:9000")]),
        Message::AskDifference(3),
        Message::Difference(-7),
        Message::FetchBlock(12),
        Message::NewBlock(block.clone()),
    ];
    for m in samples {
        let bytes = m.encode();
        let back = Message::decode(&bytes).expect("decoding an encoding succeeds");
        assert_eq!(back.encode(), bytes);
    }
}

#[test]
fn private_key_save_load_identity() {
    let sk = PrivateKey::new_key();
    let bytes = sk.save();
    let back = PrivateKey::load(&bytes).expect("load recovers a saved key");
    let pk1 = sk.public_key();
    let pk2 = back.public_key();
    assert!(pk1.equals(&pk2));
}

#[test]
fn public_key_pem_save_load_identity() {
    let pk = PrivateKey::new_key().public_key();
    let pem = pk.save().expect("a generated key renders as PEM");
    let back = PublicKey::load(&pem).expect("the PEM parses back");
    assert!(pk.equals(&back));
}

#[test]
fn blockchain_snapshot_round_trip() {
    let key = PrivateKey::new_key().public_key();
    let mut chain = Blockchain::new();
    let block = genesis_block(vec![coinbase_paying(&key, 5_000_000_000, 2)]);
    chain.add_block(block).expect("a genesis block is accepted");
    chain.rebuild_utxos();
    let bytes = chain.save();
    let back = Blockchain::load(&bytes).expect("a snapshot loads");
    assert_eq!(back.blocks().len(), 1);
    assert_eq!(back.mempool().len(), 0);
    assert!(back.target().equals(&chain.target()));
    assert_eq!(back.utxos().len(), chain.utxos().len());
}

#[test]
fn genesis_requires_zero_link() {
    let key = PrivateKey::new_key().public_key();
    let txs = vec![coinbase_paying(&key, 5_000_000_000, 3)];
    let merkle = MerkleRoot::calculate(&txs);
    let block = Block {
        header: BlockHeader {
            timestamp: 1_000,
            nonce: 0,
            prev_block_hash: txs[0].hash(),
            merkle_root: merkle,
            target: U256::min_target(),
        },
        transactions: txs,
    };
    let mut chain = Blockchain::new();
    assert!(matches!(
        chain.add_block(block),
        Err(btclib::error::BtcError::InvalidBlock)
    ));
    assert_eq!(chain.blocks().len(), 0);
}

#[test]
fn genesis_and_spend() {
    let k1 = PrivateKey::new_key();
    let k2 = PrivateKey::new_key();
    let mut chain = Blockchain::new();
    let block = genesis_block(vec![coinbase_paying(&k1.public_key(), 5_000_000_000, 4)]);
    chain.add_block(block).expect("genesis accepted");
    chain.rebuild_utxos();

    let list = chain.utxos_for_key(&k1.public_key());
    assert_eq!(list.len(), 1);
    let candidates: Vec<Candidate> = list
        .iter()
        .map(|(o, marked)| Candidate {
            key_index: 0,
            marked: *marked,
            output: o.clone(),
        })
        .collect();
    assert_eq!(get_balance(&candidates), 5_000_000_000);

    let keys = vec![KeyPair {
        public: k1.public_key(),
        private: k1,
    }];
    let tx = create_transaction_checked(&keys, &candidates, &k2.public_key(), 1_000_000_000, 0, 5, 6)
        .expect("the key material lines up")
        .expect("funds suffice");
    assert_eq!(tx.outputs.len(), 2);
    assert_eq!(tx.outputs[0].value, 1_000_000_000);
    assert_eq!(tx.outputs[1].value, 4_000_000_000);
    chain
        .add_to_mempool_at(tx, 10_000)
        .expect("a funded transaction is admitted");
    assert_eq!(chain.mempool().len(), 1);
}

#[test]
fn insufficient_funds_is_reported() {
    let k1 = PrivateKey::new_key();
    let k2 = PrivateKey::new_key();
    let keys = vec![KeyPair {
        public: k1.public_key(),
        private: k1,
    }];
    let candidates: Vec<Candidate> = vec![];
    let r = create_transaction_checked(&keys, &candidates, &k2.public_key(), 10, 1, 7, 8)
        .expect("the key material lines up");
    assert!(matches!(r, Err(btclib::error::BtcError::InsufficientFunds)));
}

#[test]
fn mempool_eviction_by_age() {
    let k1 = PrivateKey::new_key();
    let mut chain = Blockchain::new();
    let block = genesis_block(vec![coinbase_paying(&k1.public_key(), 5_000_000_000, 10)]);
    chain.add_block(block).expect("genesis accepted");
    chain.rebuild_utxos();
    let consumed = {
        let list = chain.utxos_for_key(&k1.public_key());
        list[0].0.clone()
    };
    let spend = Transaction {
        inputs: vec![TransactionInput {
            prev_transaction_output_hash: consumed.hash(),
            signature: Signature::from_bytes(vec![0u8; 64]),
        }],
        outputs: vec![TransactionOutput {
            value: 5_000_000_000,
            unique_id: 11,
            pubkey: k1.public_key(),
        }],
    };
    chain.add_to_mempool_at(spend, 50_000).expect("admitted");
    assert_eq!(chain.mempool().len(), 1);
    assert!(chain.utxos().get(&consumed.hash()).unwrap().marked);

    chain.cleanup_mempool_at(50_000 + 601);
    assert_eq!(chain.mempool().len(), 0);
    assert!(!chain.utxos().get(&consumed.hash()).unwrap().marked);
}

#[test]
fn template_orders_by_descending_fee() {
    let k1 = PrivateKey::new_key();
    let mut chain = Blockchain::new();
    let outputs: Vec<TransactionOutput> = (0u128..3)
        .map(|i| TransactionOutput {
            value: 1_000,
            unique_id: 20 + i,
            pubkey: k1.public_key(),
        })
        .collect();
    let block = genesis_block(vec![Transaction {
        inputs: vec![],
        outputs,
    }]);
    chain.add_block(block).expect("genesis accepted");
    chain.rebuild_utxos();
    let list = chain.utxos_for_key(&k1.public_key());
    assert_eq!(list.len(), 3);
    let fees = [10u64, 30, 20];
    for (i, (o, _)) in list.iter().enumerate() {
        let spend = Transaction {
            inputs: vec![TransactionInput {
                prev_transaction_output_hash: o.hash(),
                signature: Signature::from_bytes(vec![i as u8; 64]),
            }],
            outputs: vec![TransactionOutput {
                value: 1_000 - fees[i],
                unique_id: 30 + i as u128,
                pubkey: k1.public_key(),
            }],
        };
        chain.add_to_mempool_at(spend, 60_000).expect("admitted");
    }
    let pool = chain.mempool();
    let pool_fees: Vec<u64> = pool.iter().map(|e| e.fee).collect();
    assert_eq!(pool_fees, vec![30, 20, 10]);

    let template = chain
        .build_template(&k1.public_key(), 70_000, 99)
        .expect("a template builds");
    assert_eq!(template.transactions.len(), 4);
    assert_eq!(template.transactions[1].outputs[0].value, 1_000 - 30);
    assert_eq!(template.transactions[2].outputs[0].value, 1_000 - 20);
    assert_eq!(template.transactions[3].outputs[0].value, 1_000 - 10);
    assert_eq!(
        template.transactions[0].outputs[0].value,
        chain.calculate_block_reward() + 60
    );
}

#[test]
fn bad_signature_is_rejected_as_invalid_signature() {
    let k1 = PrivateKey::new_key();
    let paid = TransactionOutput {
        value: 700,
        unique_id: 40,
        pubkey: k1.public_key(),
    };
    let mut utxos = UtxoSet::new();
    utxos.insert(paid.hash(), false, paid.clone());
    let coinbase = coinbase_paying(&k1.public_key(), 5_000_000_000 + 700, 41);
    let spend = Transaction {
        inputs: vec![TransactionInput {
            prev_transaction_output_hash: paid.hash(),
            signature: Signature::from_bytes(vec![7u8; 64]),
        }],
        outputs: vec![],
    };
    let block = genesis_block(vec![coinbase, spend]);
    let r = block.verify_transactions(0, &utxos);
    assert!(matches!(r, Err(btclib::error::BtcError::InvalidSignature)));
}

#[test]
fn correctly_signed_transfer_verifies() {
    let k1 = PrivateKey::new_key();
    let paid = TransactionOutput {
        value: 700,
        unique_id: 42,
        pubkey: k1.public_key(),
    };
    let mut utxos = UtxoSet::new();
    utxos.insert(paid.hash(), false, paid.clone());
    let coinbase = coinbase_paying(&k1.public_key(), 5_000_000_000 + 700, 43);
    let signature = Signature::sign_output(&paid.hash(), &k1).expect("a fresh key signs");
    let spend = Transaction {
        inputs: vec![TransactionInput {
            prev_transaction_output_hash: paid.hash(),
            signature,
        }],
        outputs: vec![],
    };
    let block = genesis_block(vec![coinbase, spend]);
    assert!(block.verify_transactions(0, &utxos).is_ok());
}

#[test]
fn coinbase_mismatch_is_rejected() {
    let k1 = PrivateKey::new_key();
    let utxos = UtxoSet::new();
    let coinbase = coinbase_paying(&k1.public_key(), 5_000_000_000 + 1, 44);
    let block = genesis_block(vec![coinbase]);
    let r = block.verify_transactions(0, &utxos);
    assert!(matches!(
        r,
        Err(btclib::error::BtcError::InvalidTransaction)
    ));
}

#[test]
fn error_messages_are_nonempty() {
    assert!(!btclib::error::BtcError::InvalidSignature.message().is_empty());
    assert!(!btclib::error::BtcError::InsufficientFunds.message().is_empty());
}

#[test]
fn min_target_has_sixteen_zero_bits() {
    let mt = U256::min_target();
    let bytes = mt.as_be_bytes();
    assert_eq!(bytes.len(), 32);
    assert_eq!(bytes[0], 0);
    assert_eq!(bytes[1], 0);
    for b in &bytes[2..] {
        assert_eq!(*b, 0xFF);
    }
}

#[test]
fn empty_mempool_still_yields_a_template() {
    let k1 = PrivateKey::new_key();
    let chain = Blockchain::new();
    let template = chain
        .build_template(&k1.public_key(), 123, 7)
        .expect("an empty mempool owes a coinbase-only template");
    assert_eq!(template.transactions.len(), 1);
    assert_eq!(
        template.transactions[0].outputs[0].value,
        chain.calculate_block_reward()
    );
}

#[test]
fn rejected_admission_changes_nothing() {
    let k1 = PrivateKey::new_key();
    let mut chain = Blockchain::new();
    let block = genesis_block(vec![coinbase_paying(&k1.public_key(), 5_000_000_000, 50)]);
    chain.add_block(block).expect("genesis accepted");
    chain.rebuild_utxos();
    let consumed = chain.utxos_for_key(&k1.public_key())[0].0.clone();
    let first = Transaction {
        inputs: vec![TransactionInput {
            prev_transaction_output_hash: consumed.hash(),
            signature: Signature::from_bytes(vec![1u8; 64]),
        }],
        outputs: vec![TransactionOutput {
            value: 5_000_000_000,
            unique_id: 51,
            pubkey: k1.public_key(),
        }],
    };
    chain.add_to_mempool_at(first, 1_000).expect("admitted");
    assert!(chain.utxos().get(&consumed.hash()).unwrap().marked);

    // consumes the reserved output but creates more than it consumes:
    // rejected, and neither the reservation nor the pool may change
    let overdraw = Transaction {
        inputs: vec![TransactionInput {
            prev_transaction_output_hash: consumed.hash(),
            signature: Signature::from_bytes(vec![2u8; 64]),
        }],
        outputs: vec![TransactionOutput {
            value: 6_000_000_000,
            unique_id: 52,
            pubkey: k1.public_key(),
        }],
    };
    let r = chain.add_to_mempool_at(overdraw, 2_000);
    assert!(matches!(r, Err(btclib::error::BtcError::InvalidTransaction)));
    assert_eq!(chain.mempool().len(), 1);
    assert!(chain.utxos().get(&consumed.hash()).unwrap().marked);
}
