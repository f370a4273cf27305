use ledger::chain::{Block, Blockchain, Transaction};

fn tx(sender: &str, receiver: &str, amount: &str) -> Transaction {
    Transaction {
        sender: sender.to_string(),
        receiver: receiver.to_string(),
        amount: amount.to_string(),
    }
}

fn is_lower_hex(s: &str) -> bool {
    s.chars().all(|c| c.is_ascii_digit() || ('a'..='f').contains(&c))
}

#[test]
fn empty_chain_is_valid() {
    let chain = Blockchain::new();
    assert_eq!(chain.blocks.len(), 0);
    assert!(chain.is_valid());
}

#[test]
fn append_to_empty_chain() {
    let mut chain = Blockchain::new();
    chain.add_block_at(1_000, tx("A", "B", "10.0"));
    assert_eq!(chain.blocks.len(), 1);
    assert_eq!(chain.blocks[0].previous_hash, "0");
    assert_eq!(chain.blocks[0].transaction.sender, "A");
    assert_eq!(chain.blocks[0].transaction.receiver, "B");
    assert_eq!(chain.blocks[0].transaction.amount, "10.0");
    assert!(chain.is_valid());
}

#[test]
fn append_links_to_prior_tail() {
    let mut chain = Blockchain::new();
    chain.add_block_at(1_000, tx("A", "B", "10.0"));
    chain.add_block_at(2_000, tx("C", "D", "5.5"));
    assert_eq!(chain.blocks.len(), 2);
    assert_eq!(chain.blocks[1].previous_hash, chain.blocks[0].hash);
    assert!(chain.is_valid());
}

#[test]
fn append_with_wall_clock_time() {
    let mut chain = Blockchain::new();
    chain.add_block(tx("A", "B", "10.0"));
    chain.add_block(tx("C", "D", "5.5"));
    assert_eq!(chain.blocks.len(), 2);
    assert_eq!(chain.blocks[0].previous_hash, "0");
    assert_eq!(chain.blocks[1].previous_hash, chain.blocks[0].hash);
    assert!(chain.is_valid());
}

#[test]
fn block_new_seals_its_digest() {
    let b = Block::new(42, tx("A", "B", "1.25"), "0".to_string());
    assert_eq!(b.timestamp, 42);
    assert_eq!(b.previous_hash, "0");
    assert_eq!(b.hash, b.calculate_hash());
    assert_eq!(b.hash.len(), 64);
    assert!(is_lower_hex(&b.hash));
}

#[test]
fn hash_is_deterministic() {
    let b1 = Block::new(42, tx("A", "B", "1.25"), "0".to_string());
    let b2 = Block::new(42, tx("A", "B", "1.25"), "0".to_string());
    assert_eq!(b1.calculate_hash(), b2.calculate_hash());
    assert_eq!(b1.hash, b2.hash);
}

#[test]
fn hash_changes_with_each_input() {
    let base = Block::new(42, tx("A", "B", "1.25"), "0".to_string());
    let other_time = Block::new(43, tx("A", "B", "1.25"), "0".to_string());
    let other_tx = Block::new(42, tx("A", "B", "1.26"), "0".to_string());
    let other_prev = Block::new(42, tx("A", "B", "1.25"), "1".to_string());
    assert_ne!(base.hash, other_time.hash);
    assert_ne!(base.hash, other_tx.hash);
    assert_ne!(base.hash, other_prev.hash);
}

#[test]
fn hash_excludes_own_hash_field() {
    let mut b = Block::new(7, tx("A", "B", "3.5"), "0".to_string());
    let before = b.calculate_hash();
    b.hash = "forged".to_string();
    assert_eq!(b.calculate_hash(), before);
}

#[test]
fn tampered_amount_is_detected() {
    let mut chain = Blockchain::new();
    chain.add_block_at(1_000, tx("A", "B", "10.0"));
    chain.add_block_at(2_000, tx("C", "D", "5.5"));
    chain.blocks[1].transaction.amount = "999.0".to_string();
    assert!(!chain.is_valid());
}

#[test]
fn tampered_timestamp_is_detected() {
    let mut chain = Blockchain::new();
    chain.add_block_at(1_000, tx("A", "B", "10.0"));
    chain.add_block_at(2_000, tx("C", "D", "5.5"));
    chain.blocks[1].timestamp = 9_999;
    assert!(!chain.is_valid());
}

#[test]
fn tampered_link_is_detected() {
    let mut chain = Blockchain::new();
    chain.add_block_at(1_000, tx("A", "B", "10.0"));
    chain.add_block_at(2_000, tx("C", "D", "5.5"));
    chain.blocks[1].previous_hash = "deadbeef".to_string();
    assert!(!chain.is_valid());
}

#[test]
fn validation_is_repeatable() {
    let mut chain = Blockchain::new();
    chain.add_block_at(1_000, tx("A", "B", "10.0"));
    chain.add_block_at(2_000, tx("C", "D", "5.5"));
    assert!(chain.is_valid());
    assert!(chain.is_valid());
    chain.blocks[1].transaction.amount = "999.0".to_string();
    assert!(!chain.is_valid());
    assert!(!chain.is_valid());
}

#[test]
fn clone_preserves_every_field() {
    let mut chain = Blockchain::new();
    chain.add_block_at(1_000, tx("A", "B", "10.0"));
    chain.add_block_at(2_000, tx("C", "D", "5.5"));
    let copy = chain.clone();
    assert_eq!(copy.blocks.len(), chain.blocks.len());
    for i in 0..chain.blocks.len() {
        assert_eq!(copy.blocks[i].timestamp, chain.blocks[i].timestamp);
        assert_eq!(copy.blocks[i].transaction.sender, chain.blocks[i].transaction.sender);
        assert_eq!(copy.blocks[i].transaction.receiver, chain.blocks[i].transaction.receiver);
        assert_eq!(copy.blocks[i].transaction.amount, chain.blocks[i].transaction.amount);
        assert_eq!(copy.blocks[i].previous_hash, chain.blocks[i].previous_hash);
        assert_eq!(copy.blocks[i].hash, chain.blocks[i].hash);
    }
}

#[test]
fn genesis_block_hash_is_not_rechecked() {
    // The validation walk starts at the second block: the genesis block has
    // no predecessor to verify against, so a change to its own payload that
    // leaves its stored hash in place is outside what `is_valid` examines.
    let mut chain = Blockchain::new();
    chain.add_block_at(1_000, tx("A", "B", "10.0"));
    chain.add_block_at(2_000, tx("C", "D", "5.5"));
    chain.blocks[0].transaction.amount = "999.0".to_string();
    assert!(chain.is_valid());
}

#[test]
fn render_lists_blocks_exactly() {
    let empty = Blockchain::new();
    assert_eq!(empty.render(), "");
    let block = Block {
        timestamp: 1000,
        transaction: tx("A", "B", "10.0"),
        previous_hash: "0".to_string(),
        hash: "abc".to_string(),
    };
    let chain = Blockchain { blocks: vec![block] };
    assert_eq!(
        chain.render(),
        "Block 0:\n  Timestamp: 1000\n  Transaction: A -> B: 10.0\n  Previous Hash: 0\n  Hash: abc\n\n"
    );
}
