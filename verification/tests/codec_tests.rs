use ledger::chain::{Block, Blockchain, Transaction};
use ledger::codec::{decode_chain, encode_chain};

fn tx(sender: &str, receiver: &str, amount: &str) -> Transaction {
    Transaction {
        sender: sender.to_string(),
        receiver: receiver.to_string(),
        amount: amount.to_string(),
    }
}

fn assert_chains_equal(a: &Blockchain, b: &Blockchain) {
    assert_eq!(a.blocks.len(), b.blocks.len());
    for i in 0..a.blocks.len() {
        assert_eq!(a.blocks[i].timestamp, b.blocks[i].timestamp);
        assert_eq!(a.blocks[i].transaction.sender, b.blocks[i].transaction.sender);
        assert_eq!(a.blocks[i].transaction.receiver, b.blocks[i].transaction.receiver);
        assert_eq!(a.blocks[i].transaction.amount, b.blocks[i].transaction.amount);
        assert_eq!(a.blocks[i].previous_hash, b.blocks[i].previous_hash);
        assert_eq!(a.blocks[i].hash, b.blocks[i].hash);
    }
}

#[test]
fn encode_empty_chain_exactly() {
    let chain = Blockchain::new();
    assert_eq!(encode_chain(&chain), "{\"blocks\":[]}");
}

#[test]
fn encode_one_block_exactly() {
    let block = Block {
        timestamp: 1000,
        transaction: tx("A", "B", "10.0"),
        previous_hash: "0".to_string(),
        hash: "abc123".to_string(),
    };
    let chain = Blockchain { blocks: vec![block] };
    assert_eq!(
        encode_chain(&chain),
        "{\"blocks\":[{\"timestamp\":1000,\"transaction\":{\"sender\":\"A\",\
         \"receiver\":\"B\",\"amount\":\"10.0\"},\"previous_hash\":\"0\",\
         \"hash\":\"abc123\"}]}"
    );
}

#[test]
fn round_trip_empty_chain() {
    let chain = Blockchain::new();
    let loaded = decode_chain(&encode_chain(&chain)).expect("stored chain must load");
    assert_chains_equal(&chain, &loaded);
}

#[test]
fn round_trip_one_block() {
    let mut chain = Blockchain::new();
    chain.add_block_at(1_000, tx("A", "B", "10.0"));
    let loaded = decode_chain(&encode_chain(&chain)).expect("stored chain must load");
    assert_chains_equal(&chain, &loaded);
    assert!(loaded.is_valid());
}

#[test]
fn round_trip_many_blocks() {
    let mut chain = Blockchain::new();
    chain.add_block_at(1_000, tx("A", "B", "10.0"));
    chain.add_block_at(2_000, tx("C", "D", "5.5"));
    chain.add_block_at(3_000, tx("E", "F", "0.125"));
    chain.add_block_at(4_000, tx("G", "H", "1000000"));
    let loaded = decode_chain(&encode_chain(&chain)).expect("stored chain must load");
    assert_chains_equal(&chain, &loaded);
    assert!(loaded.is_valid());
}

#[test]
fn round_trip_escapes_quotes_and_backslashes() {
    let mut chain = Blockchain::new();
    chain.add_block_at(5, tx("a\"b\\c", "\\\"", "1.0"));
    let text = encode_chain(&chain);
    let loaded = decode_chain(&text).expect("stored chain must load");
    assert_chains_equal(&chain, &loaded);
}

#[test]
fn round_trip_unicode_fields() {
    let mut chain = Blockchain::new();
    chain.add_block_at(6, tx("ålice Ω", "ボブ", "2.5"));
    let loaded = decode_chain(&encode_chain(&chain)).expect("stored chain must load");
    assert_chains_equal(&chain, &loaded);
}

#[test]
fn decode_rejects_garbage() {
    assert!(decode_chain("").is_none());
    assert!(decode_chain("not a chain").is_none());
    assert!(decode_chain("{\"blocks\":").is_none());
    assert!(decode_chain("{\"blocks\":[}").is_none());
}

#[test]
fn decode_rejects_truncated_text() {
    let mut chain = Blockchain::new();
    chain.add_block_at(1_000, tx("A", "B", "10.0"));
    let text = encode_chain(&chain);
    let truncated = &text[..text.len() - 2];
    assert!(decode_chain(truncated).is_none());
}

#[test]
fn decode_rejects_trailing_text() {
    let mut chain = Blockchain::new();
    chain.add_block_at(1_000, tx("A", "B", "10.0"));
    let mut text = encode_chain(&chain);
    text.push(' ');
    assert!(decode_chain(&text).is_none());
}

#[test]
fn decode_empty_list_exactly() {
    let loaded = decode_chain("{\"blocks\":[]}").expect("the empty chain must load");
    assert_eq!(loaded.blocks.len(), 0);
}
