use bchain::Blockchain;
use bchain::BlockStep;
use bchain::bchain_error::BChainError;
use bchain::config::{COIN, EPOCH_HEIGHT, GENESIS, get_validators_consensus_block};
use bchain::transaction::{Transaction, TransactionType};

const INITIAL_AMOUNT: u64 = 100 * COIN;
const EXCEESIVE_AMOUNT: u64 = 150 * COIN;
const SUFFICIENT_AMOUNT: u64 = 60 * COIN;

fn initiate_account(blockchain: &mut Blockchain, user: String) {
    blockchain
        .add_block(vec![Transaction::new(
            GENESIS.to_string(),
            TransactionType::Transfer {
                sender: GENESIS.to_string(),
                receiver: user,
                amount: INITIAL_AMOUNT,
            },
            0,
        )])
        .unwrap();
}

fn put_stake(blockchain: &mut Blockchain, user: String, amount: u64) -> Result<BlockStep, BChainError> {
    blockchain.add_block(vec![Transaction::new(
        user.clone(),
        TransactionType::Stake { user, amount },
        0,
    )])
}

fn transfer(
    blockchain: &mut Blockchain,
    sender: String,
    receiver: String,
    amount: u64,
) -> Result<BlockStep, BChainError> {
    blockchain.add_block(vec![Transaction::new(
        sender.clone(),
        TransactionType::Transfer {
            sender,
            receiver,
            amount,
        },
        0,
    )])
}

#[test]
fn test_genesis_block() {
    let blockchain = Blockchain::new();
    assert_eq!(blockchain.chain_len(), 1);
    let first_block = blockchain.get_block_by_idx(0).unwrap();
    assert_eq!(first_block.previous_hash, "0".to_owned());
    assert_eq!(first_block.validator, GENESIS.to_owned());
}

#[test]
fn test_ok_when_put_valid_stake() {
    let mut blockchain = Blockchain::new();
    println!("Genesis block: {:?}", blockchain.get_block_by_idx(0));

    let account_1 = "Allice".to_string();
    initiate_account(&mut blockchain, account_1.clone());
    assert!(put_stake(&mut blockchain, account_1, SUFFICIENT_AMOUNT).is_ok());
}

#[test]
fn test_error_when_put_too_high_stake() {
    let mut blockchain = Blockchain::new();
    println!(
        "Genesis block: {:?}",
        blockchain.get_block_by_idx(0).unwrap()
    );

    let account_1 = "Allice".to_string();
    initiate_account(&mut blockchain, account_1.clone());
    assert!(put_stake(&mut blockchain, account_1, EXCEESIVE_AMOUNT).is_err());
}

#[test]
fn test_error_when_too_high_stake_put_after_tx() {
    let mut blockchain = Blockchain::new();
    println!("Genesis block: {:?}", blockchain.get_block_by_idx(0));

    let account_1 = "Allice".to_string();
    let account_2 = "Bob".to_string();
    initiate_account(&mut blockchain, account_1.clone());
    initiate_account(&mut blockchain, account_2.clone());

    assert!(transfer(
        &mut blockchain,
        account_1.clone(),
        account_2,
        SUFFICIENT_AMOUNT
    )
    .is_ok());
    assert!(put_stake(&mut blockchain, account_1, SUFFICIENT_AMOUNT).is_err());
}

#[test]
fn test_error_when_too_high_tx_after_stake_put() {
    let mut blockchain = Blockchain::new();
    println!("Genesis block: {:?}", blockchain.get_block_by_idx(0));

    let account_1 = "Allice".to_string();
    let account_2 = "Bob".to_string();
    initiate_account(&mut blockchain, account_1.clone());
    initiate_account(&mut blockchain, account_2.clone());

    assert!(put_stake(&mut blockchain, account_1.clone(), SUFFICIENT_AMOUNT).is_ok());
    assert!(transfer(&mut blockchain, account_1, account_2, SUFFICIENT_AMOUNT).is_err());
}

#[test]
fn test_ok_when_high_stake_put_after_receiving() {
    let mut blockchain = Blockchain::new();
    println!("Genesis block: {:?}", blockchain.get_block_by_idx(0));

    let account_1 = "Allice".to_string();
    let account_2 = "Bob".to_string();
    initiate_account(&mut blockchain, account_1.clone());
    initiate_account(&mut blockchain, account_2.clone());

    assert!(transfer(
        &mut blockchain,
        account_2,
        account_1.clone(),
        SUFFICIENT_AMOUNT
    )
    .is_ok());
    assert!(put_stake(&mut blockchain, account_1, EXCEESIVE_AMOUNT).is_ok());
}

#[test]
fn test_validator_consensus_block() {
    assert_eq!(get_validators_consensus_block(0), 0);
    assert_eq!(get_validators_consensus_block(1), 0);
    assert_eq!(get_validators_consensus_block(2), EPOCH_HEIGHT - 1);
}

#[test]
fn test_initial_funding_balances() {
    let mut blockchain = Blockchain::new();
    initiate_account(&mut blockchain, "Alice".to_string());
    assert_eq!(blockchain.chain_len(), 2);
    let alice = blockchain.get_wallet("Alice").unwrap();
    assert_eq!(alice.balance, 100 * COIN);
    assert_eq!(alice.staked, 0);
    let genesis = blockchain.get_wallet(GENESIS).unwrap();
    assert_eq!(genesis.balance, 900 * COIN);
}

#[test]
fn test_valid_stake_balances() {
    let mut blockchain = Blockchain::new();
    initiate_account(&mut blockchain, "Alice".to_string());
    put_stake(&mut blockchain, "Alice".to_string(), SUFFICIENT_AMOUNT).unwrap();
    let alice = blockchain.get_wallet("Alice").unwrap();
    assert_eq!(alice.balance, 40 * COIN);
    assert_eq!(alice.staked, 60 * COIN);
}

#[test]
fn test_overstake_error_kind_and_chain() {
    let mut blockchain = Blockchain::new();
    initiate_account(&mut blockchain, "Alice".to_string());
    let r = put_stake(&mut blockchain, "Alice".to_string(), EXCEESIVE_AMOUNT);
    assert!(matches!(r, Err(BChainError::InsufficientBalance)));
    // The failed block is not appended.
    assert_eq!(blockchain.chain_len(), 2);
}

#[test]
fn test_receive_then_stake_balances() {
    let mut blockchain = Blockchain::new();
    initiate_account(&mut blockchain, "Alice".to_string());
    initiate_account(&mut blockchain, "Bob".to_string());
    transfer(
        &mut blockchain,
        "Bob".to_string(),
        "Alice".to_string(),
        SUFFICIENT_AMOUNT,
    )
    .unwrap();
    put_stake(&mut blockchain, "Alice".to_string(), EXCEESIVE_AMOUNT).unwrap();
    let alice = blockchain.get_wallet("Alice").unwrap();
    assert_eq!(alice.staked, 150 * COIN);
    assert_eq!(alice.balance, 10 * COIN);
}

#[test]
fn test_unknown_sender_rejected() {
    let mut blockchain = Blockchain::new();
    let r = transfer(
        &mut blockchain,
        "Nobody".to_string(),
        "Alice".to_string(),
        COIN,
    );
    assert!(matches!(r, Err(BChainError::UserNotFound(_))));
}

#[test]
fn test_unstake_errors_and_pending_queue() {
    let mut blockchain = Blockchain::new();
    initiate_account(&mut blockchain, "Alice".to_string());
    put_stake(&mut blockchain, "Alice".to_string(), SUFFICIENT_AMOUNT).unwrap();

    // More than is staked.
    let r = blockchain.add_block(vec![Transaction::new(
        "Alice".to_string(),
        TransactionType::Unstake {
            user: "Alice".to_string(),
            amount: 70 * COIN,
        },
        0,
    )]);
    assert!(matches!(r, Err(BChainError::InsufficientStake)));

    // A fee that the remaining balance cannot cover.
    let r = blockchain.add_block(vec![Transaction::new(
        "Alice".to_string(),
        TransactionType::Unstake {
            user: "Alice".to_string(),
            amount: 10 * COIN,
        },
        1000 * COIN,
    )]);
    assert!(matches!(r, Err(BChainError::InsufficientFee)));

    // A proper unstake queues a withdrawal effective two epochs later.
    blockchain
        .add_block(vec![Transaction::new(
            "Alice".to_string(),
            TransactionType::Unstake {
                user: "Alice".to_string(),
                amount: 20 * COIN,
            },
            0,
        )])
        .unwrap();
    let alice = blockchain.get_wallet("Alice").unwrap();
    assert_eq!(alice.staked, 40 * COIN);
    let front = alice.pending_unstakes.front().unwrap();
    assert_eq!(front.amount, 20 * COIN);
    assert_eq!(front.effective_epoch, 2);
}

#[test]
fn test_pending_unstake_not_credited_early() {
    let mut blockchain = Blockchain::new();
    initiate_account(&mut blockchain, "Alice".to_string());
    put_stake(&mut blockchain, "Alice".to_string(), SUFFICIENT_AMOUNT).unwrap();
    blockchain
        .add_block(vec![Transaction::new(
            "Alice".to_string(),
            TransactionType::Unstake {
                user: "Alice".to_string(),
                amount: 20 * COIN,
            },
            0,
        )])
        .unwrap();
    // Heights 4..=19 lie before the first block of epoch 2: the withdrawal
    // must stay queued.
    while blockchain.chain_len() < 20 {
        blockchain.add_block(vec![]).unwrap();
        let alice = blockchain.get_wallet("Alice").unwrap();
        assert!(!alice.pending_unstakes.is_empty());
    }
    // The block at height 20 opens epoch 2 and releases it.
    blockchain.add_block(vec![]).unwrap();
    let alice = blockchain.get_wallet("Alice").unwrap();
    assert!(alice.pending_unstakes.is_empty());
    assert!(alice.balance >= 60 * COIN);
    assert_eq!(alice.staked, 40 * COIN);
}

#[test]
fn test_state_root_independent_of_funding_order() {
    let mut chain_a = Blockchain::new();
    initiate_account(&mut chain_a, "Alice".to_string());
    initiate_account(&mut chain_a, "Bob".to_string());

    let mut chain_b = Blockchain::new();
    initiate_account(&mut chain_b, "Bob".to_string());
    initiate_account(&mut chain_b, "Alice".to_string());

    let root_a = &chain_a.get_block_by_idx(2).unwrap().state_root;
    let root_b = &chain_b.get_block_by_idx(2).unwrap().state_root;
    assert_eq!(root_a, root_b);
}

#[test]
fn test_chain_is_valid_and_detects_tampering() {
    let mut blockchain = Blockchain::new();
    initiate_account(&mut blockchain, "Alice".to_string());
    assert!(blockchain.is_valid());
}

#[test]
fn test_overspend_after_stake_error_kind() {
    let mut blockchain = Blockchain::new();
    initiate_account(&mut blockchain, "Alice".to_string());
    initiate_account(&mut blockchain, "Bob".to_string());
    put_stake(&mut blockchain, "Alice".to_string(), SUFFICIENT_AMOUNT).unwrap();
    let r = transfer(
        &mut blockchain,
        "Alice".to_string(),
        "Bob".to_string(),
        SUFFICIENT_AMOUNT,
    );
    assert!(matches!(r, Err(BChainError::InsufficientBalance)));
}

#[test]
fn test_epoch_rewards_per_slot() {
    let mut blockchain = Blockchain::new();
    initiate_account(&mut blockchain, "Alice".to_string());
    put_stake(&mut blockchain, "Alice".to_string(), SUFFICIENT_AMOUNT).unwrap();
    // The schedule drawn at height 10 puts the only staker in every slot;
    // it becomes current at height 20 and is paid at height 30: one reward
    // of staked / 100000 per slot, once per slot by design.
    while blockchain.chain_len() < 30 {
        blockchain.add_block(vec![]).unwrap();
    }
    let alice = blockchain.get_wallet("Alice").unwrap();
    assert_eq!(alice.balance, 40 * COIN);
    blockchain.add_block(vec![]).unwrap();
    let alice = blockchain.get_wallet("Alice").unwrap();
    let per_slot_reward = SUFFICIENT_AMOUNT / 100_000;
    assert_eq!(
        alice.balance,
        40 * COIN + EPOCH_HEIGHT as u64 * per_slot_reward
    );
    assert_eq!(alice.staked, SUFFICIENT_AMOUNT);
}
