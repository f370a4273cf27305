//! The ledger core: transactions, hash-chained blocks, and the append-only
//! chain with its validation walk.

use vstd::prelude::*;
use vstd::string::StringExecFns;
use crate::hashing::{sha256_hex, sha256_hex_of};
use crate::text::{dec_of, push_u128_dec};

verus! {

/// A transfer of some amount from a sender to a receiver.
///
/// The amount is carried as its exact decimal text: the ledger never computes
/// with it, and text serializes deterministically and without loss of
/// precision — both of which matter, since the amount feeds the digest.
pub struct Transaction {
    pub sender: String,
    pub receiver: String,
    pub amount: String,
}

/// The mathematical value of a `Transaction`: its fields as character
/// sequences.
#[verifier::ext_equal]
pub ghost struct TxView {
    pub sender: Seq<char>,
    pub receiver: Seq<char>,
    pub amount: Seq<char>,
}

impl View for Transaction {
    type V = TxView;

    open spec fn view(&self) -> TxView {
        TxView { sender: self.sender@, receiver: self.receiver@, amount: self.amount@ }
    }
}

impl Clone for Transaction {
    fn clone(&self) -> (r: Self)
        ensures
            r@ == self@,
    {
        Transaction {
            sender: self.sender.clone(),
            receiver: self.receiver.clone(),
            amount: self.amount.clone(),
        }
    }
}

/// The canonical text over which a block's digest is computed: the timestamp
/// in decimal, then the transaction fields, then the previous hash, separated
/// by `|`. This fixed field order and separator is what makes the digest
/// reproducible across processes; it is part of the wire contract.
pub open spec fn hash_input(timestamp: u128, tx: TxView, previous_hash: Seq<char>) -> Seq<char> {
    dec_of(timestamp as nat) + seq!['|'] + tx.sender + seq!['|'] + tx.receiver + seq!['|']
        + tx.amount + seq!['|'] + previous_hash
}

/// The digest a block with these fields must carry.
pub open spec fn block_digest(timestamp: u128, tx: TxView, previous_hash: Seq<char>) -> Seq<char> {
    sha256_hex_of(hash_input(timestamp, tx, previous_hash))
}

/// A transaction plus its chaining metadata, sealed by its own digest.
pub struct Block {
    pub timestamp: u128,
    pub transaction: Transaction,
    pub previous_hash: String,
    pub hash: String,
}

/// The mathematical value of a `Block`.
#[verifier::ext_equal]
pub ghost struct BlockView {
    pub timestamp: u128,
    pub transaction: TxView,
    pub previous_hash: Seq<char>,
    pub hash: Seq<char>,
}

impl View for Block {
    type V = BlockView;

    open spec fn view(&self) -> BlockView {
        BlockView {
            timestamp: self.timestamp,
            transaction: self.transaction@,
            previous_hash: self.previous_hash@,
            hash: self.hash@,
        }
    }
}

impl Clone for Block {
    fn clone(&self) -> (r: Self)
        ensures
            r@ == self@,
    {
        Block {
            timestamp: self.timestamp,
            transaction: self.transaction.clone(),
            previous_hash: self.previous_hash.clone(),
            hash: self.hash.clone(),
        }
    }
}

impl BlockView {
    /// The digest of this block's hashed fields; the block's own `hash` field
    /// takes no part in it.
    pub open spec fn digest(self) -> Seq<char> {
        block_digest(self.timestamp, self.transaction, self.previous_hash)
    }

    /// Tamper evidence for one block: the stored hash is the recomputed
    /// digest of the other fields.
    pub open spec fn wf(self) -> bool {
        self.hash == self.digest()
    }
}

impl Block {
    /// Builds a block and seals it with the digest of its fields.
    pub fn new(timestamp: u128, transaction: Transaction, previous_hash: String) -> (r: Block)
        ensures
            r@.timestamp == timestamp,
            r@.transaction == transaction@,
            r@.previous_hash == previous_hash@,
            r@.hash == block_digest(timestamp, transaction@, previous_hash@),
            r@.wf(),
    {
        let mut block = Block { timestamp, transaction, previous_hash, hash: String::new() };
        block.hash = block.calculate_hash();
        block
    }

    /// Recomputes the digest from the hashed fields alone.
    pub fn calculate_hash(&self) -> (r: String)
        ensures
            r@ == self@.digest(),
    {
        let mut data = String::new();
        push_u128_dec(&mut data, self.timestamp);
        data.append("|");
        data.append(self.transaction.sender.as_str());
        data.append("|");
        data.append(self.transaction.receiver.as_str());
        data.append("|");
        data.append(self.transaction.amount.as_str());
        data.append("|");
        data.append(self.previous_hash.as_str());
        proof {
            reveal_strlit("|");
            assert(data@ =~= hash_input(self.timestamp, self.transaction@, self.previous_hash@));
        }
        sha256_hex(data.as_str())
    }
}

/// The fixed sentinel that the first block's `previous_hash` carries.
pub open spec fn genesis_prev() -> Seq<char> {
    seq!['0']
}

/// The hash the next appended block must reference: the genesis sentinel on
/// an empty chain, else the tail block's hash.
pub open spec fn tail_hash(blocks: Seq<BlockView>) -> Seq<char> {
    if blocks.len() == 0 {
        genesis_prev()
    } else {
        blocks.last().hash
    }
}

/// What every chain built through `new` and `add_block` satisfies: each block
/// carries its recomputed digest, consecutive blocks are linked hash to hash,
/// and the first block references the genesis sentinel.
pub open spec fn chain_wf(blocks: Seq<BlockView>) -> bool {
    &&& forall|i: int| 0 <= i < blocks.len() ==> (#[trigger] blocks[i]).wf()
    &&& forall|i: int|
        1 <= i < blocks.len() ==> (#[trigger] blocks[i]).previous_hash == blocks[i - 1].hash
    &&& blocks.len() > 0 ==> blocks[0].previous_hash == genesis_prev()
}

/// Exactly what `is_valid` checks: every non-genesis block carries its
/// recomputed digest and links to its predecessor's hash.
pub open spec fn chain_valid(blocks: Seq<BlockView>) -> bool {
    forall|i: int|
        1 <= i < blocks.len() ==> (#[trigger] blocks[i]).wf() && blocks[i].previous_hash
            == blocks[i - 1].hash
}

/// An append-only sequence of blocks; it grows by one block per append and is
/// never reordered or shrunk.
pub struct Blockchain {
    pub blocks: Vec<Block>,
}

/// The mathematical values of a sequence of blocks.
pub open spec fn views_of(blocks: Seq<Block>) -> Seq<BlockView> {
    blocks.map_values(|b: Block| b@)
}

impl View for Blockchain {
    type V = Seq<BlockView>;

    open spec fn view(&self) -> Seq<BlockView> {
        views_of(self.blocks@)
    }
}

impl Clone for Blockchain {
    fn clone(&self) -> (r: Self)
        ensures
            r@ == self@,
    {
        let mut blocks: Vec<Block> = Vec::new();
        let n = self.blocks.len();
        for i in 0..n
            invariant
                n == self.blocks.len(),
                blocks@.len() == i,
                forall|j: int| 0 <= j < i ==> blocks@[j]@ == #[trigger] self.blocks@[j]@,
        {
            blocks.push(self.blocks[i].clone());
        }
        let r = Blockchain { blocks };
        proof {
            assert(r@ =~= self@);
        }
        r
    }
}

/// Relies on chrono's `Utc::now().timestamp_millis()`: the current wall-clock
/// time in milliseconds since the epoch. Nothing is assumed of the value.
#[verifier::external_body]
fn now_millis() -> u128 {
    chrono::Utc::now().timestamp_millis() as u128
}

impl Blockchain {
    /// The empty chain.
    pub fn new() -> (r: Blockchain)
        ensures
            r@ == Seq::<BlockView>::empty(),
            chain_wf(r@),
    {
        Blockchain { blocks: Vec::new() }
    }

    /// Appends a block holding `transaction` with the given timestamp. The
    /// new block references the current tail (or the genesis sentinel) and is
    /// sealed with its digest; no existing block is touched.
    pub fn add_block_at(&mut self, timestamp: u128, transaction: Transaction)
        ensures
            final(self)@ == old(self)@.push(
                (BlockView {
                    timestamp,
                    transaction: transaction@,
                    previous_hash: tail_hash(old(self)@),
                    hash: block_digest(timestamp, transaction@, tail_hash(old(self)@)),
                }),
            ),
            chain_wf(old(self)@) ==> chain_wf(final(self)@),
    {
        let previous_hash = if self.blocks.len() == 0 {
            String::from_str("0")
        } else {
            self.blocks[self.blocks.len() - 1].hash.clone()
        };
        proof {
            reveal_strlit("0");
            assert(previous_hash@ =~= tail_hash(self@));
        }
        let new_block = Block::new(timestamp, transaction, previous_hash);
        self.blocks.push(new_block);
        proof {
            assert(self@ =~= old(self)@.push(
                BlockView {
                    timestamp,
                    transaction: transaction@,
                    previous_hash: tail_hash(old(self)@),
                    hash: block_digest(timestamp, transaction@, tail_hash(old(self)@)),
                },
            ));
            if chain_wf(old(self)@) {
                assert(chain_wf(self@));
            }
        }
    }

    /// Appends a block holding `transaction`, timestamped with the current
    /// wall-clock time. The chain grows by exactly one block; the new block
    /// references the prior tail's hash (or the genesis sentinel), carries
    /// its recomputed digest, and every earlier block is left untouched.
    pub fn add_block(&mut self, transaction: Transaction)
        ensures
            final(self)@.len() == old(self)@.len() + 1,
            final(self)@.subrange(0, old(self)@.len() as int) == old(self)@,
            final(self)@.last().transaction == transaction@,
            final(self)@.last().previous_hash == tail_hash(old(self)@),
            final(self)@.last().wf(),
            chain_wf(old(self)@) ==> chain_wf(final(self)@),
    {
        let timestamp = now_millis();
        self.add_block_at(timestamp, transaction);
        proof {
            assert(self@.subrange(0, old(self)@.len() as int) =~= old(self)@);
        }
    }

    /// Walks the chain recomputing digests: returns true exactly when every
    /// non-genesis block carries its recomputed digest and links to its
    /// predecessor's hash. Read-only, so repeated calls agree.
    pub fn is_valid(&self) -> (r: bool)
        ensures
            r == chain_valid(self@),
    {
        let mut i: usize = 1;
        while i < self.blocks.len()
            invariant
                1 <= i,
                forall|j: int|
                    1 <= j < i ==> (#[trigger] self@[j]).wf() && self@[j].previous_hash
                        == self@[j - 1].hash,
            decreases self.blocks.len() - i,
        {
            let current = &self.blocks[i];
            let previous = &self.blocks[i - 1];
            let recomputed = current.calculate_hash();
            proof {
                assert(self@[i as int] == self.blocks@[i as int]@);
                assert(self@[i as int - 1] == self.blocks@[i as int - 1]@);
            }
            if current.hash != recomputed {
                assert(!(self@[i as int].wf()));
                assert(!chain_valid(self@));
                return false;
            }
            if current.previous_hash != previous.hash {
                assert(self@[i as int].previous_hash != self@[i as int - 1].hash);
                assert(!chain_valid(self@));
                return false;
            }
            i += 1;
        }
        true
    }
}

/// The text of one block in a chain listing, at position `i`.
pub open spec fn render_block_spec(i: nat, b: BlockView) -> Seq<char> {
    "Block "@ + dec_of(i) + ":\n  Timestamp: "@ + dec_of(b.timestamp as nat)
        + "\n  Transaction: "@ + b.transaction.sender + " -> "@ + b.transaction.receiver + ": "@
        + b.transaction.amount + "\n  Previous Hash: "@ + b.previous_hash + "\n  Hash: "@ + b.hash
        + "\n\n"@
}

/// The text of a whole chain listing, block by block.
pub open spec fn render_spec(blocks: Seq<BlockView>) -> Seq<char>
    decreases blocks.len(),
{
    if blocks.len() == 0 {
        Seq::empty()
    } else {
        render_spec(blocks.drop_last()) + render_block_spec(
            (blocks.len() - 1) as nat,
            blocks.last(),
        )
    }
}

impl Blockchain {
    /// A readable listing of every block, in chain order.
    pub fn render(&self) -> (r: String)
        ensures
            r@ == render_spec(self@),
    {
        let mut out = String::new();
        let n = self.blocks.len();
        let mut i: usize = 0;
        while i < n
            invariant
                n == self.blocks.len(),
                i <= n,
                out@ == render_spec(self@.subrange(0, i as int)),
            decreases n - i,
        {
            let b = &self.blocks[i];
            out.append("Block ");
            push_u128_dec(&mut out, i as u128);
            out.append(":\n  Timestamp: ");
            push_u128_dec(&mut out, b.timestamp);
            out.append("\n  Transaction: ");
            out.append(b.transaction.sender.as_str());
            out.append(" -> ");
            out.append(b.transaction.receiver.as_str());
            out.append(": ");
            out.append(b.transaction.amount.as_str());
            out.append("\n  Previous Hash: ");
            out.append(b.previous_hash.as_str());
            out.append("\n  Hash: ");
            out.append(b.hash.as_str());
            out.append("\n\n");
            proof {
                let pre = self@.subrange(0, i as int);
                let cur = self@.subrange(0, i as int + 1);
                assert(cur.drop_last() =~= pre);
                assert(cur.last() == self@[i as int]);
                assert(out@ =~= render_spec(cur));
            }
            i += 1;
        }
        proof {
            assert(self@.subrange(0, n as int) =~= self@);
        }
        out
    }
}

/// Law: a chain built solely through `new` and `add_block` — which keeps a
/// chain well-formed — always passes validation.
pub proof fn lemma_wf_chain_validates(blocks: Seq<BlockView>)
    requires
        chain_wf(blocks),
    ensures
        chain_valid(blocks),
{
}

/// Law: the digest is a pure function of the hashed fields — blocks that
/// agree on timestamp, transaction and previous hash have the same digest.
pub proof fn lemma_digest_deterministic(a: BlockView, b: BlockView)
    requires
        a.timestamp == b.timestamp,
        a.transaction == b.transaction,
        a.previous_hash == b.previous_hash,
    ensures
        a.digest() == b.digest(),
{
}

/// Law: any change to a non-genesis block of a well-formed chain that leaves
/// the stored hash in place but makes it disagree with the recomputed digest
/// is detected by validation. With a collision-resistant digest, changing
/// the timestamp, the transaction or the previous hash does exactly that in
/// practice; the collision case itself is beyond proof and is exercised by
/// tests instead.
pub proof fn lemma_tampered_block_detected(blocks: Seq<BlockView>, i: int, forged: BlockView)
    requires
        chain_wf(blocks),
        1 <= i < blocks.len(),
        forged.hash == blocks[i].hash,
        !forged.wf(),
    ensures
        !chain_valid(blocks.update(i, forged)),
{
    let tampered = blocks.update(i, forged);
    assert(!(tampered[i].wf()));
}

/// Law: forging the previous-hash link of any non-genesis block of a
/// well-formed chain, leaving everything else untouched, makes validation
/// fail — with no appeal to the digest at all, since the link check compares
/// the stored strings directly.
pub proof fn lemma_forged_link_detected(blocks: Seq<BlockView>, i: int, forged: Seq<char>)
    requires
        chain_wf(blocks),
        1 <= i < blocks.len(),
        forged != blocks[i].previous_hash,
    ensures
        !chain_valid(blocks.update(i, (BlockView { previous_hash: forged, ..blocks[i] }))),
{
    let tampered = blocks.update(i, BlockView { previous_hash: forged, ..blocks[i] });
    assert(tampered[i].previous_hash == forged);
    assert(tampered[i - 1] == blocks[i - 1]);
    assert(blocks[i].previous_hash == blocks[i - 1].hash);
    assert(!(tampered[i].previous_hash == tampered[i - 1].hash));
}

} // verus!
