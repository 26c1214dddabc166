use bchain::Blockchain;
use bchain::BlockStep;
use bchain::bchain_error::BChainError;
use bchain::block::Block;
use bchain::config::{COIN, GENESIS};
use bchain::message::{Message, MessageType};
use bchain::patricia_merkle_trie::pmt_proof::{get_merkle_proof, verify_merkle_proof};
use bchain::patricia_merkle_trie::state_root::compute;
use bchain::text::u64_to_dec;
use bchain::transaction::{Transaction, TransactionType};
use bchain::wallets::Wallets;
use bchain::mempool::Mempool;

fn fund(blockchain: &mut Blockchain, user: &str, amount: u64) {
    blockchain
        .add_block(vec![Transaction::new(
            GENESIS.to_string(),
            TransactionType::Transfer {
                sender: GENESIS.to_string(),
                receiver: user.to_string(),
                amount,
            },
            0,
        )])
        .unwrap();
}

#[test]
fn test_deploy_and_call_contract_steps() {
    let mut blockchain = Blockchain::new();
    fund(&mut blockchain, "Alice", 500 * COIN);

    let code: Vec<u8> = vec![0, 97, 115, 109];
    blockchain
        .add_block(vec![Transaction::new(
            "Alice".to_string(),
            TransactionType::DeployContract { code: code.clone() },
            COIN,
        )])
        .unwrap();

    let step = blockchain
        .add_block(vec![Transaction::new(
            "Alice".to_string(),
            TransactionType::CallContract {
                contract_address: "contract_0".to_string(),
            },
            COIN,
        )])
        .unwrap();
    match step {
        BlockStep::RunContract {
            contract_address,
            sender,
            code: returned_code,
        } => {
            assert_eq!(contract_address, "contract_0");
            assert_eq!(sender, "Alice");
            assert_eq!(returned_code, code);
        }
        BlockStep::Sealed => panic!("a contract call must hand control back"),
    }
    assert!(blockchain.has_pending_call());

    // The guest reads and writes ledger and storage through host functions.
    assert_eq!(blockchain.host_get_balance("Alice"), 499 * COIN);
    assert_eq!(blockchain.host_get_balance("Nobody"), 0);
    assert!(blockchain.host_transfer("Alice", "Bob", 50 * COIN));
    assert!(!blockchain.host_transfer("Alice", "Bob", 0));
    assert!(blockchain.host_stake("Alice", 10 * COIN));
    assert!(!blockchain.host_stake("Alice", 10_000 * COIN));
    assert!(blockchain.host_unstake("Alice", 5 * COIN));
    assert!(!blockchain.host_unstake("Alice", 50 * COIN));
    blockchain.host_store("contract_0", "counter", vec![1, 0, 0, 0]);
    assert_eq!(
        blockchain.host_load("contract_0", "counter"),
        Some(vec![1, 0, 0, 0])
    );
    assert_eq!(blockchain.host_load("contract_0", "missing"), None);
    assert_eq!(blockchain.host_load("contract_9", "counter"), None);

    // A clean guest exit seals the block; the guest's mutations stay.
    let step = blockchain.resume_block(0).unwrap();
    assert!(matches!(step, BlockStep::Sealed));
    assert!(!blockchain.has_pending_call());
    let bob = blockchain.get_wallet("Bob").unwrap();
    assert_eq!(bob.balance, 50 * COIN);
}

#[test]
fn test_failed_guest_keeps_mutations_but_drops_block() {
    let mut blockchain = Blockchain::new();
    fund(&mut blockchain, "Alice", 500 * COIN);
    blockchain
        .add_block(vec![Transaction::new(
            "Alice".to_string(),
            TransactionType::DeployContract { code: vec![1, 2, 3] },
            0,
        )])
        .unwrap();
    let height_before = blockchain.chain_len();
    blockchain
        .add_block(vec![Transaction::new(
            "Alice".to_string(),
            TransactionType::CallContract {
                contract_address: "contract_0".to_string(),
            },
            COIN,
        )])
        .unwrap();
    blockchain.host_store("contract_0", "key", vec![7]);
    let r = blockchain.resume_block(1);
    assert!(matches!(r, Err(BChainError::ContractExecutionFailure)));
    // No block was appended, but the fee debit and the store stay.
    assert_eq!(blockchain.chain_len(), height_before);
    assert_eq!(blockchain.host_load("contract_0", "key"), Some(vec![7]));
    let alice = blockchain.get_wallet("Alice").unwrap();
    assert_eq!(alice.balance, 499 * COIN);
}

#[test]
fn test_call_missing_contract() {
    let mut blockchain = Blockchain::new();
    fund(&mut blockchain, "Alice", 100 * COIN);
    let r = blockchain.add_block(vec![Transaction::new(
        "Alice".to_string(),
        TransactionType::CallContract {
            contract_address: "contract_7".to_string(),
        },
        COIN,
    )]);
    assert!(matches!(r, Err(BChainError::ContractNotFound)));
    // The fee was already debited when the lookup failed.
    let alice = blockchain.get_wallet("Alice").unwrap();
    assert_eq!(alice.balance, 99 * COIN);
}

#[test]
fn test_merkle_proof_round_trip_runtime() {
    let mut blockchain = Blockchain::new();
    fund(&mut blockchain, "Alice", 100 * COIN);
    let block = blockchain.get_block_by_idx(1).unwrap();
    let wallets = blockchain.wallet_set();
    let proof = get_merkle_proof(wallets, "Alice").unwrap();
    assert!(verify_merkle_proof(wallets, block, "Alice", &proof));
    // The same proof does not speak for another user.
    assert!(!verify_merkle_proof(wallets, block, GENESIS, &proof));
    // An absent user has no proof.
    assert!(get_merkle_proof(wallets, "Nobody").is_none());
}

#[test]
fn test_state_root_of_empty_wallet_set() {
    let empty = Wallets::new();
    let (root, tree) = compute(&empty);
    // SHA-256 of the empty input, in lowercase hex.
    assert_eq!(
        root,
        "e3b0c44298fc1c149afbf4c8996fb92427ae41e4649b934ca495991b7852b855"
    );
    assert!(tree.is_empty());
}

#[test]
fn test_block_seals_its_contents() {
    let block = Block::new(
        vec![Transaction::new(
            "Alice".to_string(),
            TransactionType::Transfer {
                sender: "Alice".to_string(),
                receiver: "Bob".to_string(),
                amount: 3 * COIN,
            },
            2,
        )],
        "0".to_string(),
        GENESIS.to_string(),
        "root".to_string(),
    );
    assert_eq!(block.total_fees, 2);
    assert_eq!(block.hash, block.calculate_hash());
    assert_eq!(block.hash.len(), 64);
}

#[test]
fn test_process_block_hash_checks() {
    let mut blockchain = Blockchain::new();
    fund(&mut blockchain, "Alice", 100 * COIN);

    // A block whose stored hash does not recompute is rejected.
    let mut corrupted = Block::new(Vec::new(), "whatever".to_string(), GENESIS.to_string(),
        "root".to_string());
    corrupted.hash = "0000".to_string();
    let r = blockchain.process_block(corrupted);
    assert!(matches!(r, Err(BChainError::BlockHashMismatch)));

    // A sealed block that does not extend the tip is rejected.
    let unlinked = Block::new(Vec::new(), "not-the-tip".to_string(), GENESIS.to_string(),
        "root".to_string());
    let r = blockchain.process_block(unlinked);
    assert!(matches!(r, Err(BChainError::PreviousHashMismatch)));

    // A sealed block extending the tip is applied.
    let tip_hash = blockchain.get_block_by_idx(1).unwrap().hash.clone();
    let good = Block::new(
        vec![Transaction::new(
            GENESIS.to_string(),
            TransactionType::Transfer {
                sender: GENESIS.to_string(),
                receiver: "Carol".to_string(),
                amount: COIN,
            },
            0,
        )],
        tip_hash,
        GENESIS.to_string(),
        "root".to_string(),
    );
    let r = blockchain.process_block(good);
    assert!(matches!(r, Ok(BlockStep::Sealed)));
    assert_eq!(blockchain.get_wallet("Carol").unwrap().balance, COIN);
}

#[test]
fn test_receive_wraps_production_failures() {
    let mut blockchain = Blockchain::new();
    let r = blockchain.receive(Message {
        msg_type: MessageType::ProduceBlock(
            GENESIS.to_string(),
            vec![Transaction::new(
                "Ghost".to_string(),
                TransactionType::Stake {
                    user: "Ghost".to_string(),
                    amount: COIN,
                },
                0,
            )],
        ),
    });
    match r {
        Err(BChainError::BlockProductionFailure(producer, inner)) => {
            assert_eq!(producer, GENESIS);
            assert!(matches!(*inner, BChainError::UserNotFound(_)));
        }
        _ => panic!("a failing transaction must wrap as a production failure"),
    }

    let r = blockchain.receive(Message {
        msg_type: MessageType::ProduceBlock(GENESIS.to_string(), Vec::new()),
    });
    assert!(matches!(r, Ok(BlockStep::Sealed)));
}

#[test]
fn test_decimal_rendering() {
    assert_eq!(u64_to_dec(0), "0");
    assert_eq!(u64_to_dec(7), "7");
    assert_eq!(u64_to_dec(100000), "100000");
    assert_eq!(u64_to_dec(18446744073709551615), "18446744073709551615");
}

#[test]
fn test_epoch_of_height() {
    assert_eq!(bchain::config::get_epoch(0), 0);
    assert_eq!(bchain::config::get_epoch(9), 0);
    assert_eq!(bchain::config::get_epoch(10), 1);
    assert_eq!(bchain::config::get_epoch(25), 2);
}

#[test]
fn test_mempool_drains_in_order() {
    let mut pool = Mempool::new();
    pool.add_transaction(Transaction::new(
        "Alice".to_string(),
        TransactionType::Stake {
            user: "Alice".to_string(),
            amount: COIN,
        },
        0,
    ));
    pool.add_transaction(Transaction::new(
        "Bob".to_string(),
        TransactionType::Unstake {
            user: "Bob".to_string(),
            amount: COIN,
        },
        1,
    ));
    let drained = pool.get_transactions();
    assert_eq!(drained.len(), 2);
    assert_eq!(drained[0].sender, "Alice");
    assert_eq!(drained[1].sender, "Bob");
    assert!(pool.get_transactions().is_empty());
}
