//! The stored text form of a chain, and its loader.
//!
//! The format is fixed character for character — `{"blocks":[...]}` with each
//! block as `{"timestamp":...,"transaction":{"sender":"...","receiver":"...",
//! "amount":"..."},"previous_hash":"...","hash":"..."}` — so that a stored
//! chain reloads field for field, hash strings included.

use vstd::prelude::*;
use vstd::string::StrSliceExecFns;
use vstd::string::StringExecFns;
use crate::chain::{views_of, Block, Blockchain, BlockView, Transaction, TxView};
use crate::text::{dec_digit, dec_of, push_char, push_u128_dec};

verus! {

/// One character of the stored form of a string field: `"` and `\` get a
/// backslash before them, every other character stands as itself.
pub open spec fn esc_char(c: char) -> Seq<char> {
    if c == '"' || c == '\\' {
        seq!['\\', c]
    } else {
        seq![c]
    }
}

/// The stored form of a string field's characters.
pub open spec fn esc(s: Seq<char>) -> Seq<char>
    decreases s.len(),
{
    if s.len() == 0 {
        Seq::empty()
    } else {
        esc_char(s[0]) + esc(s.drop_first())
    }
}

/// A string field as it stands in the stored text: escaped body, then the
/// closing quote. (The opening quote belongs to the fixed text before it.)
pub open spec fn qesc(s: Seq<char>) -> Seq<char> {
    esc(s) + seq!['"']
}

proof fn lemma_esc_append(a: Seq<char>, b: Seq<char>)
    ensures
        esc(a + b) == esc(a) + esc(b),
    decreases a.len(),
{
    if a.len() == 0 {
        assert(a + b =~= b);
        assert(esc(a) + esc(b) =~= esc(b));
    } else {
        assert((a + b).drop_first() =~= a.drop_first() + b);
        lemma_esc_append(a.drop_first(), b);
        assert(esc(a + b) =~= esc(a) + esc(b));
    }
}

/// Appends the escaped form of `s` to `out`.
fn escape_into(out: &mut String, s: &str)
    ensures
        final(out)@ == old(out)@ + esc(s@),
{
    let n = s.unicode_len();
    let mut i: usize = 0;
    while i < n
        invariant
            n == s@.len(),
            i <= n,
            out@ == old(out)@ + esc(s@.subrange(0, i as int)),
        decreases n - i,
    {
        let c = s.get_char(i);
        if c == '"' || c == '\\' {
            push_char(out, '\\');
            push_char(out, c);
        } else {
            push_char(out, c);
        }
        proof {
            let pre = s@.subrange(0, i as int);
            assert(s@.subrange(0, i as int + 1) =~= pre + seq![s@[i as int]]);
            lemma_esc_append(pre, seq![s@[i as int]]);
            let single = seq![s@[i as int]];
            assert(single.drop_first() =~= Seq::<char>::empty());
            assert(esc(single) =~= esc_char(s@[i as int]) + esc(Seq::<char>::empty()));
            assert(esc(single) =~= esc_char(s@[i as int]));
            assert(out@ =~= old(out)@ + esc(s@.subrange(0, i as int + 1)));
        }
        i += 1;
    }
    proof {
        assert(s@.subrange(0, n as int) =~= s@);
    }
}

/// The stored text of one block. Field order, nesting, quoting and the
/// decimal timestamp are fixed; this is the wire contract.
pub open spec fn encode_block_spec(b: BlockView) -> Seq<char> {
    "{\"timestamp\":"@ + dec_of(b.timestamp as nat) + ",\"transaction\":{\"sender\":\""@ + qesc(
        b.transaction.sender,
    ) + ",\"receiver\":\""@ + qesc(b.transaction.receiver) + ",\"amount\":\""@ + qesc(
        b.transaction.amount,
    ) + "},\"previous_hash\":\""@ + qesc(b.previous_hash) + ",\"hash\":\""@ + qesc(b.hash)
        + "}"@
}

/// The stored text of a sequence of blocks, comma-separated.
pub open spec fn encode_blocks_spec(blocks: Seq<BlockView>) -> Seq<char>
    decreases blocks.len(),
{
    if blocks.len() == 0 {
        Seq::empty()
    } else if blocks.len() == 1 {
        encode_block_spec(blocks[0])
    } else {
        encode_blocks_spec(blocks.drop_last()) + ","@ + encode_block_spec(blocks.last())
    }
}

/// The stored text of a whole chain.
pub open spec fn encode_chain_spec(blocks: Seq<BlockView>) -> Seq<char> {
    "{\"blocks\":["@ + encode_blocks_spec(blocks) + "]}"@
}

fn encode_block_into(out: &mut String, b: &Block)
    ensures
        final(out)@ == old(out)@ + encode_block_spec(b@),
{
    out.append("{\"timestamp\":");
    push_u128_dec(out, b.timestamp);
    out.append(",\"transaction\":{\"sender\":\"");
    escape_into(out, b.transaction.sender.as_str());
    out.append("\"");
    out.append(",\"receiver\":\"");
    escape_into(out, b.transaction.receiver.as_str());
    out.append("\"");
    out.append(",\"amount\":\"");
    escape_into(out, b.transaction.amount.as_str());
    out.append("\"");
    out.append("},\"previous_hash\":\"");
    escape_into(out, b.previous_hash.as_str());
    out.append("\"");
    out.append(",\"hash\":\"");
    escape_into(out, b.hash.as_str());
    out.append("\"");
    out.append("}");
    proof {
        reveal_strlit("\"");
        assert(out@ =~= old(out)@ + encode_block_spec(b@));
    }
}

/// Produces the stored text of the chain, character for character as the
/// wire contract fixes it.
pub fn encode_chain(chain: &Blockchain) -> (r: String)
    ensures
        r@ == encode_chain_spec(chain@),
{
    let mut out = String::new();
    out.append("{\"blocks\":[");
    let n = chain.blocks.len();
    let mut i: usize = 0;
    while i < n
        invariant
            n == chain.blocks.len(),
            i <= n,
            out@ == "{\"blocks\":["@ + encode_blocks_spec(chain@.subrange(0, i as int)),
        decreases n - i,
    {
        if i > 0 {
            out.append(",");
        }
        encode_block_into(&mut out, &chain.blocks[i]);
        proof {
            let pre = chain@.subrange(0, i as int);
            let cur = chain@.subrange(0, i as int + 1);
            assert(cur.drop_last() =~= pre);
            assert(cur.last() == chain@[i as int]);
            assert(out@ =~= "{\"blocks\":["@ + encode_blocks_spec(cur));
        }
        i += 1;
    }
    out.append("]}");
    proof {
        assert(chain@.subrange(0, n as int) =~= chain@);
        assert(out@ =~= encode_chain_spec(chain@));
    }
    out
}

/// `p` is the first `p.len()` characters of `t`.
pub open spec fn is_prefix(p: Seq<char>, t: Seq<char>) -> bool {
    p.len() <= t.len() && t.subrange(0, p.len() as int) == p
}

/// Scans the body of a quoted string, the opening quote already consumed:
/// characters up to the first unescaped quote, with the escapes undone.
/// Yields the content and the count of characters consumed, closing quote
/// included.
pub open spec fn scan_qstr(t: Seq<char>) -> Option<(Seq<char>, nat)>
    decreases t.len(),
{
    if t.len() == 0 {
        None
    } else if t[0] == '"' {
        Some((Seq::empty(), 1nat))
    } else if t[0] == '\\' {
        if t.len() == 1 {
            None
        } else {
            match scan_qstr(t.subrange(2, t.len() as int)) {
                Some(p) => Some((seq![t[1]] + p.0, (p.1 + 2) as nat)),
                None => None,
            }
        }
    } else {
        match scan_qstr(t.subrange(1, t.len() as int)) {
            Some(p) => Some((seq![t[0]] + p.0, (p.1 + 1) as nat)),
            None => None,
        }
    }
}

/// Scanning the stored form of a string field gives the field back: the
/// escapes undo exactly, and the scan stops at the closing quote.
proof fn lemma_scan_qstr_qesc(v: Seq<char>, rest: Seq<char>)
    ensures
        scan_qstr(qesc(v) + rest) == Some((v, qesc(v).len() as nat)),
    decreases v.len(),
{
    let t = qesc(v) + rest;
    if v.len() == 0 {
        assert(esc(v) =~= Seq::<char>::empty());
        assert(t[0] == '"');
        assert(v =~= Seq::<char>::empty());
        assert(scan_qstr(t) == Some((v, qesc(v).len() as nat)));
    } else {
        let c = v[0];
        let tail = v.drop_first();
        assert(esc(v) == esc_char(c) + esc(tail));
        lemma_scan_qstr_qesc(tail, rest);
        if c == '"' || c == '\\' {
            assert(t[0] == '\\');
            assert(t.len() >= 2);
            assert(t[1] == c);
            assert(t.subrange(2, t.len() as int) =~= qesc(tail) + rest);
            assert(seq![c] + tail =~= v);
            assert(qesc(v).len() == qesc(tail).len() + 2);
        } else {
            assert(t[0] == c);
            assert(t.subrange(1, t.len() as int) =~= qesc(tail) + rest);
            assert(seq![c] + tail =~= v);
            assert(qesc(v).len() == qesc(tail).len() + 1);
        }
        assert(scan_qstr(t) == Some((v, qesc(v).len() as nat)));
    }
}

/// A decimal digit character.
pub open spec fn is_digit(c: char) -> bool {
    48 <= c as int <= 57
}

/// Its numeric value.
pub open spec fn digit_val(c: char) -> nat {
    (c as int - 48) as nat
}

/// The length of the run of digits at the head of `t`.
pub open spec fn digits_len(t: Seq<char>) -> nat
    decreases t.len(),
{
    if t.len() == 0 || !is_digit(t[0]) {
        0
    } else {
        (1 + digits_len(t.drop_first())) as nat
    }
}

/// The value of a sequence of digit characters, most significant first.
pub open spec fn dec_val(ds: Seq<char>) -> nat
    decreases ds.len(),
{
    if ds.len() == 0 {
        0
    } else {
        dec_val(ds.drop_last()) * 10 + digit_val(ds.last())
    }
}

/// Scanning a decimal number from the head of `t`: the digit run's value and
/// length, if there is a run and the value fits.
pub open spec fn scan_u128(t: Seq<char>) -> Option<(u128, nat)> {
    let k = digits_len(t);
    if k == 0 {
        None
    } else if dec_val(t.subrange(0, k as int)) > u128::MAX {
        None
    } else {
        Some((dec_val(t.subrange(0, k as int)) as u128, k))
    }
}

/// The decimal rendering of `n` is all digits and reads back as `n`.
proof fn lemma_dec_of_val(n: nat)
    ensures
        dec_of(n).len() >= 1,
        forall|i: int| 0 <= i < dec_of(n).len() ==> is_digit(#[trigger] dec_of(n)[i]),
        dec_val(dec_of(n)) == n,
    decreases n,
{
    if n < 10 {
        assert(dec_of(n).drop_last() =~= Seq::<char>::empty());
        assert(dec_val(Seq::<char>::empty()) == 0);
        assert(dec_of(n).last() == dec_digit(n));
        assert(digit_val(dec_digit(n)) == n);
        assert(dec_val(dec_of(n)) == 0 * 10 + digit_val(dec_digit(n)));
    } else {
        lemma_dec_of_val(n / 10);
        let ds = dec_of(n);
        assert(ds == dec_of(n / 10).push(dec_digit(n % 10)));
        assert(ds.drop_last() =~= dec_of(n / 10));
        assert(ds.last() == dec_digit(n % 10));
        assert(digit_val(dec_digit(n % 10)) == n % 10);
        assert(dec_val(ds) == (n / 10) * 10 + n % 10);
        vstd::arithmetic::div_mod::lemma_fundamental_div_mod(n as int, 10);
    }
}

/// The digit run of `ds + rest` is exactly `ds` when `ds` is all digits and
/// `rest` opens with a non-digit.
proof fn lemma_digits_len_concat(ds: Seq<char>, rest: Seq<char>)
    requires
        forall|i: int| 0 <= i < ds.len() ==> is_digit(#[trigger] ds[i]),
        rest.len() > 0,
        !is_digit(rest[0]),
    ensures
        digits_len(ds + rest) == ds.len(),
    decreases ds.len(),
{
    let t = ds + rest;
    if ds.len() == 0 {
        assert(t =~= rest);
    } else {
        assert(is_digit(t[0]));
        assert(t.drop_first() =~= ds.drop_first() + rest);
        lemma_digits_len_concat(ds.drop_first(), rest);
    }
}

/// Scanning a fixed piece of text: consumed whole, or no match.
pub open spec fn scan_lit(t: Seq<char>, p: Seq<char>) -> Option<nat> {
    if is_prefix(p, t) {
        Some(p.len())
    } else {
        None
    }
}

/// Scans one stored block from the head of `t`: the fixed field skeleton
/// with a decimal timestamp and four quoted string fields in it.
#[verifier::opaque]
pub open spec fn scan_block(t: Seq<char>) -> Option<(BlockView, nat)> {
    match scan_lit(t, "{\"timestamp\":"@) {
        None => None,
        Some(p1) => match scan_u128(t.skip(p1 as int)) {
            None => None,
            Some((ts, n1)) => match scan_lit(
                t.skip((p1 + n1) as int),
                ",\"transaction\":{\"sender\":\""@,
            ) {
                None => None,
                Some(l2) => match scan_qstr(t.skip((p1 + n1 + l2) as int)) {
                    None => None,
                    Some((sender, n2)) => {
                        let p2 = p1 + n1 + l2 + n2;
                        match scan_lit(t.skip(p2 as int), ",\"receiver\":\""@) {
                            None => None,
                            Some(l3) => match scan_qstr(t.skip((p2 + l3) as int)) {
                                None => None,
                                Some((receiver, n3)) => {
                                    let p3 = p2 + l3 + n3;
                                    match scan_lit(t.skip(p3 as int), ",\"amount\":\""@) {
                                        None => None,
                                        Some(l4) => match scan_qstr(t.skip((p3 + l4) as int)) {
                                            None => None,
                                            Some((amount, n4)) => {
                                                let p4 = p3 + l4 + n4;
                                                match scan_lit(
                                                    t.skip(p4 as int),
                                                    "},\"previous_hash\":\""@,
                                                ) {
                                                    None => None,
                                                    Some(l5) => match scan_qstr(
                                                        t.skip((p4 + l5) as int),
                                                    ) {
                                                        None => None,
                                                        Some((previous_hash, n5)) => {
                                                            let p5 = p4 + l5 + n5;
                                                            match scan_lit(
                                                                t.skip(p5 as int),
                                                                ",\"hash\":\""@,
                                                            ) {
                                                                None => None,
                                                                Some(l6) => match scan_qstr(
                                                                    t.skip((p5 + l6) as int),
                                                                ) {
                                                                    None => None,
                                                                    Some((hash, n6)) => {
                                                                        let p6 = p5 + l6 + n6;
                                                                        match scan_lit(
                                                                            t.skip(p6 as int),
                                                                            "}"@,
                                                                        ) {
                                                                            None => None,
                                                                            Some(l7) => Some(
                                                                                (
                                                                                    (BlockView {
                                                                                        timestamp:
                                                                                            ts,
                                                                                        transaction:
                                                                                            (TxView {
                                                                                            sender,
                                                                                            receiver,
                                                                                            amount,
                                                                                        }),
                                                                                        previous_hash,
                                                                                        hash,
                                                                                    }),
                                                                                    (p6 + l7) as nat,
                                                                                ),
                                                                            ),
                                                                        }
                                                                    },
                                                                },
                                                            }
                                                        },
                                                    },
                                                }
                                            },
                                        },
                                    }
                                },
                            },
                        }
                    },
                },
            },
        },
    }
}

/// Scans the remaining blocks of the list: as many `,`-prefixed blocks as
/// stand at the head of `t`.
pub open spec fn scan_blocks_rest(t: Seq<char>) -> Option<(Seq<BlockView>, nat)>
    decreases t.len(),
{
    if t.len() == 0 || t[0] != ',' {
        Some((Seq::empty(), 0nat))
    } else {
        match scan_block(t.skip(1)) {
            None => None,
            Some((b, n)) => {
                if 1 + n > t.len() {
                    None
                } else {
                    match scan_blocks_rest(t.skip((1 + n) as int)) {
                        None => None,
                        Some((bs, m)) => Some((seq![b] + bs, (1 + n + m) as nat)),
                    }
                }
            },
        }
    }
}

/// What loading stored text yields: the block list, when the whole text is
/// exactly a stored chain.
pub open spec fn parse_chain_text(s: Seq<char>) -> Option<Seq<BlockView>> {
    match scan_lit(s, "{\"blocks\":["@) {
        None => None,
        Some(h) => {
            let t = s.skip(h as int);
            if t == "]}"@ {
                Some(Seq::empty())
            } else {
                match scan_block(t) {
                    None => None,
                    Some((b, n)) => match scan_blocks_rest(t.skip(n as int)) {
                        None => None,
                        Some((bs, m)) => if t.len() == n + m + 2 && is_prefix(
                            "]}"@,
                            t.skip((n + m) as int),
                        ) {
                            Some(seq![b] + bs)
                        } else {
                            None
                        },
                    },
                }
            }
        },
    }
}

proof fn lemma_skip_concat(a: Seq<char>, b: Seq<char>)
    ensures
        (a + b).len() == a.len() + b.len(),
        (a + b).subrange(0, a.len() as int) == a,
        (a + b).skip(a.len() as int) == b,
{
    assert((a + b).subrange(0, a.len() as int) =~= a);
    assert((a + b).skip(a.len() as int) =~= b);
}

proof fn lemma_skip_skip(t: Seq<char>, a: int, b: int)
    requires
        0 <= a,
        0 <= b,
        a + b <= t.len(),
    ensures
        t.skip(a).skip(b) == t.skip(a + b),
{
    assert(t.skip(a).skip(b) =~= t.skip(a + b));
}

/// Every piece of one block's stored text scans as itself: the fixed texts
/// stand at their positions, the timestamp reads back, and each quoted field
/// unescapes to the field.
#[verifier::rlimit(100)]
proof fn lemma_scan_block_enc_parts(b: BlockView, rest: Seq<char>)
    ensures
        ({
            let t = encode_block_spec(b) + rest;
            let p1 = "{\"timestamp\":"@.len();
            let p2 = p1 + dec_of(b.timestamp as nat).len();
            let p3 = p2 + ",\"transaction\":{\"sender\":\""@.len();
            let p4 = p3 + qesc(b.transaction.sender).len();
            let p5 = p4 + ",\"receiver\":\""@.len();
            let p6 = p5 + qesc(b.transaction.receiver).len();
            let p7 = p6 + ",\"amount\":\""@.len();
            let p8 = p7 + qesc(b.transaction.amount).len();
            let p9 = p8 + "},\"previous_hash\":\""@.len();
            let p10 = p9 + qesc(b.previous_hash).len();
            let p11 = p10 + ",\"hash\":\""@.len();
            let p12 = p11 + qesc(b.hash).len();
            let p13 = p12 + "}"@.len();
            &&& is_prefix("{\"timestamp\":"@, t)
            &&& scan_u128(t.skip(p1 as int)) == Some((b.timestamp, (p2 - p1) as nat))
            &&& is_prefix(",\"transaction\":{\"sender\":\""@, t.skip(p2 as int))
            &&& scan_qstr(t.skip(p3 as int)) == Some((b.transaction.sender, (p4 - p3) as nat))
            &&& is_prefix(",\"receiver\":\""@, t.skip(p4 as int))
            &&& scan_qstr(t.skip(p5 as int)) == Some((b.transaction.receiver, (p6 - p5) as nat))
            &&& is_prefix(",\"amount\":\""@, t.skip(p6 as int))
            &&& scan_qstr(t.skip(p7 as int)) == Some((b.transaction.amount, (p8 - p7) as nat))
            &&& is_prefix("},\"previous_hash\":\""@, t.skip(p8 as int))
            &&& scan_qstr(t.skip(p9 as int)) == Some((b.previous_hash, (p10 - p9) as nat))
            &&& is_prefix(",\"hash\":\""@, t.skip(p10 as int))
            &&& scan_qstr(t.skip(p11 as int)) == Some((b.hash, (p12 - p11) as nat))
            &&& is_prefix("}"@, t.skip(p12 as int))
            &&& p13 == encode_block_spec(b).len()
        }),
{
    reveal_strlit("{\"timestamp\":");
    reveal_strlit(",\"transaction\":{\"sender\":\"");
    reveal_strlit(",\"receiver\":\"");
    reveal_strlit(",\"amount\":\"");
    reveal_strlit("},\"previous_hash\":\"");
    reveal_strlit(",\"hash\":\"");
    reveal_strlit("}");
    let l1 = "{\"timestamp\":"@;
    let l2 = ",\"transaction\":{\"sender\":\""@;
    let l3 = ",\"receiver\":\""@;
    let l4 = ",\"amount\":\""@;
    let l5 = "},\"previous_hash\":\""@;
    let l6 = ",\"hash\":\""@;
    let l7 = "}"@;
    let ts = dec_of(b.timestamp as nat);
    let q1 = qesc(b.transaction.sender);
    let q2 = qesc(b.transaction.receiver);
    let q3 = qesc(b.transaction.amount);
    let q4 = qesc(b.previous_hash);
    let q5 = qesc(b.hash);
    let t12 = l7 + rest;
    let t11 = q5 + t12;
    let t10 = l6 + t11;
    let t9 = q4 + t10;
    let t8 = l5 + t9;
    let t7 = q3 + t8;
    let t6 = l4 + t7;
    let t5 = q2 + t6;
    let t4 = l3 + t5;
    let t3 = q1 + t4;
    let t2 = l2 + t3;
    let t1 = ts + t2;
    let t = encode_block_spec(b) + rest;
    assert(t =~= l1 + t1);
    lemma_skip_concat(l1, t1);
    assert(is_prefix(l1, t));
    let p1 = l1.len() as int;
    assert(t.skip(p1) == t1);
    // the decimal timestamp, ended by the comma that opens the next field
    lemma_dec_of_val(b.timestamp as nat);
    lemma_skip_concat(ts, t2);
    assert(t2[0] == l2[0]);
    assert(!is_digit(t2[0]));
    lemma_digits_len_concat(ts, t2);
    assert(t1.subrange(0, ts.len() as int) == ts);
    assert(scan_u128(t1) == Some((b.timestamp, ts.len() as nat)));
    let p2 = p1 + ts.len() as int;
    lemma_skip_skip(t, p1, ts.len() as int);
    assert(t.skip(p2) == t2);
    lemma_skip_concat(l2, t3);
    assert(is_prefix(l2, t2));
    let p3 = p2 + l2.len() as int;
    lemma_skip_skip(t, p2, l2.len() as int);
    assert(t.skip(p3) == t3);
    lemma_scan_qstr_qesc(b.transaction.sender, t4);
    assert(scan_qstr(t3) == Some((b.transaction.sender, q1.len() as nat)));
    lemma_skip_concat(q1, t4);
    let p4 = p3 + q1.len() as int;
    lemma_skip_skip(t, p3, q1.len() as int);
    assert(t.skip(p4) == t4);
    lemma_skip_concat(l3, t5);
    assert(is_prefix(l3, t4));
    let p5 = p4 + l3.len() as int;
    lemma_skip_skip(t, p4, l3.len() as int);
    assert(t.skip(p5) == t5);
    lemma_scan_qstr_qesc(b.transaction.receiver, t6);
    assert(scan_qstr(t5) == Some((b.transaction.receiver, q2.len() as nat)));
    lemma_skip_concat(q2, t6);
    let p6 = p5 + q2.len() as int;
    lemma_skip_skip(t, p5, q2.len() as int);
    assert(t.skip(p6) == t6);
    lemma_skip_concat(l4, t7);
    assert(is_prefix(l4, t6));
    let p7 = p6 + l4.len() as int;
    lemma_skip_skip(t, p6, l4.len() as int);
    assert(t.skip(p7) == t7);
    lemma_scan_qstr_qesc(b.transaction.amount, t8);
    assert(scan_qstr(t7) == Some((b.transaction.amount, q3.len() as nat)));
    lemma_skip_concat(q3, t8);
    let p8 = p7 + q3.len() as int;
    lemma_skip_skip(t, p7, q3.len() as int);
    assert(t.skip(p8) == t8);
    lemma_skip_concat(l5, t9);
    assert(is_prefix(l5, t8));
    let p9 = p8 + l5.len() as int;
    lemma_skip_skip(t, p8, l5.len() as int);
    assert(t.skip(p9) == t9);
    lemma_scan_qstr_qesc(b.previous_hash, t10);
    assert(scan_qstr(t9) == Some((b.previous_hash, q4.len() as nat)));
    lemma_skip_concat(q4, t10);
    let p10 = p9 + q4.len() as int;
    lemma_skip_skip(t, p9, q4.len() as int);
    assert(t.skip(p10) == t10);
    lemma_skip_concat(l6, t11);
    assert(is_prefix(l6, t10));
    let p11 = p10 + l6.len() as int;
    lemma_skip_skip(t, p10, l6.len() as int);
    assert(t.skip(p11) == t11);
    lemma_scan_qstr_qesc(b.hash, t12);
    assert(scan_qstr(t11) == Some((b.hash, q5.len() as nat)));
    lemma_skip_concat(q5, t12);
    let p12 = p11 + q5.len() as int;
    lemma_skip_skip(t, p11, q5.len() as int);
    assert(t.skip(p12) == t12);
    lemma_skip_concat(l7, rest);
    assert(is_prefix(l7, t12));
    let p13 = p12 + l7.len() as int;
    assert(p13 == encode_block_spec(b).len());
}

/// The stored text of one block scans back to exactly that block, whatever
/// follows it.
#[verifier::rlimit(100)]
proof fn lemma_scan_block_enc(b: BlockView, rest: Seq<char>)
    ensures
        scan_block(encode_block_spec(b) + rest) == Some(
            (b, encode_block_spec(b).len() as nat),
        ),
{
    lemma_scan_block_enc_parts(b, rest);
    reveal(scan_block);
    assert((BlockView {
        timestamp: b.timestamp,
        transaction: (TxView {
            sender: b.transaction.sender,
            receiver: b.transaction.receiver,
            amount: b.transaction.amount,
        }),
        previous_hash: b.previous_hash,
        hash: b.hash,
    }) =~= b);
}

/// The comma-separated stored text, built block by block from the front.
pub open spec fn encode_rest_spec(bs: Seq<BlockView>) -> Seq<char>
    decreases bs.len(),
{
    if bs.len() == 0 {
        Seq::empty()
    } else {
        ","@ + encode_block_spec(bs[0]) + encode_rest_spec(bs.drop_first())
    }
}

proof fn lemma_encode_rest_last(bs: Seq<BlockView>)
    requires
        bs.len() >= 1,
    ensures
        encode_rest_spec(bs) == encode_rest_spec(bs.drop_last()) + ","@ + encode_block_spec(
            bs.last(),
        ),
    decreases bs.len(),
{
    if bs.len() == 1 {
        assert(bs.drop_last() =~= Seq::<BlockView>::empty());
        assert(bs.drop_first() =~= Seq::<BlockView>::empty());
        assert(encode_rest_spec(bs) =~= encode_rest_spec(bs.drop_last()) + ","@
            + encode_block_spec(bs.last()));
    } else {
        lemma_encode_rest_last(bs.drop_first());
        assert(bs.drop_first().drop_last() =~= bs.drop_last().drop_first());
        assert(bs.drop_first().last() == bs.last());
        assert(bs.drop_last()[0] == bs[0]);
        assert(encode_rest_spec(bs) =~= encode_rest_spec(bs.drop_last()) + ","@
            + encode_block_spec(bs.last()));
    }
}

proof fn lemma_encode_blocks_head(bs: Seq<BlockView>)
    requires
        bs.len() >= 1,
    ensures
        encode_blocks_spec(bs) == encode_block_spec(bs[0]) + encode_rest_spec(bs.drop_first()),
    decreases bs.len(),
{
    if bs.len() == 1 {
        assert(bs.drop_first() =~= Seq::<BlockView>::empty());
        assert(encode_blocks_spec(bs) =~= encode_block_spec(bs[0]) + encode_rest_spec(
            bs.drop_first(),
        ));
    } else {
        lemma_encode_blocks_head(bs.drop_last());
        lemma_encode_rest_last(bs.drop_first());
        assert(bs.drop_last()[0] == bs[0]);
        assert(bs.drop_last().drop_first() =~= bs.drop_first().drop_last());
        assert(bs.drop_first().last() == bs.last());
        assert(encode_blocks_spec(bs) =~= encode_block_spec(bs[0]) + encode_rest_spec(
            bs.drop_first(),
        ));
    }
}

#[verifier::rlimit(100)]
proof fn lemma_scan_blocks_rest_enc(bs: Seq<BlockView>, rest: Seq<char>)
    requires
        rest.len() > 0,
        rest[0] == ']',
    ensures
        scan_blocks_rest(encode_rest_spec(bs) + rest) == Some(
            (bs, encode_rest_spec(bs).len() as nat),
        ),
    decreases bs.len(),
{
    reveal_strlit(",");
    let t = encode_rest_spec(bs) + rest;
    if bs.len() == 0 {
        assert(encode_rest_spec(bs) =~= Seq::<char>::empty());
        assert(t =~= rest);
        assert(t[0] != ',');
        assert(bs =~= Seq::<BlockView>::empty());
    } else {
        let tail = bs.drop_first();
        let eb = encode_block_spec(bs[0]);
        let er = encode_rest_spec(tail);
        assert(t[0] == ',');
        assert(t.skip(1) =~= eb + (er + rest));
        lemma_scan_block_enc(bs[0], er + rest);
        assert(1 + eb.len() <= t.len());
        assert(t.skip((1 + eb.len()) as int) =~= er + rest);
        lemma_scan_blocks_rest_enc(tail, rest);
        assert(seq![bs[0]] + tail =~= bs);
        assert(encode_rest_spec(bs).len() == 1 + eb.len() + er.len());
    }
}

/// Law: the stored text of any chain loads back to exactly that chain —
/// field for field, hash strings included, for every length.
#[verifier::rlimit(100)]
pub proof fn lemma_parse_encode(bs: Seq<BlockView>)
    ensures
        parse_chain_text(encode_chain_spec(bs)) == Some(bs),
{
    reveal_strlit("]}");
    reveal_strlit("{\"blocks\":[");
    reveal_strlit("{\"timestamp\":");
    let head = "{\"blocks\":["@;
    let s = encode_chain_spec(bs);
    assert(s.subrange(0, head.len() as int) =~= head);
    assert(is_prefix(head, s));
    let t = s.skip(head.len() as int);
    assert(t =~= encode_blocks_spec(bs) + "]}"@);
    if bs.len() == 0 {
        assert(encode_blocks_spec(bs) =~= Seq::<char>::empty());
        assert(t =~= "]}"@);
        assert(t == "]}"@);
    } else {
        lemma_encode_blocks_head(bs);
        let eb = encode_block_spec(bs[0]);
        let er = encode_rest_spec(bs.drop_first());
        assert(t =~= eb + (er + "]}"@));
        assert(t[0] == '{');
        assert("]}"@[0] == ']');
        assert(t != "]}"@);
        lemma_scan_block_enc(bs[0], er + "]}"@);
        assert(t.skip(eb.len() as int) =~= er + "]}"@);
        lemma_scan_blocks_rest_enc(bs.drop_first(), "]}"@);
        assert(t.len() == eb.len() + er.len() + 2);
        assert(t.skip((eb.len() + er.len()) as int) =~= "]}"@);
        assert(("]}"@).subrange(0, "]}"@.len() as int) =~= "]}"@);
        assert(is_prefix("]}"@, t.skip((eb.len() + er.len()) as int)));
        assert(seq![bs[0]] + bs.drop_first() =~= bs);
    }
}

proof fn lemma_dec_val_prefix(ds: Seq<char>, a: int)
    requires
        0 <= a <= ds.len(),
    ensures
        dec_val(ds.subrange(0, a)) <= dec_val(ds),
    decreases ds.len() - a,
{
    if a == ds.len() {
        assert(ds.subrange(0, a) =~= ds);
    } else {
        lemma_dec_val_prefix(ds, a + 1);
        let pre = ds.subrange(0, a);
        let cur = ds.subrange(0, a + 1);
        assert(cur.drop_last() =~= pre);
        assert(dec_val(cur) == dec_val(pre) * 10 + digit_val(cur.last()));
    }
}

fn is_digit_exec(c: char) -> (r: bool)
    ensures
        r == is_digit(c),
{
    let u = c as u32;
    48 <= u && u <= 57
}

/// Checks that the fixed text `lit` stands at position `i` of `s`.
fn expect_lit(s: &str, i: usize, lit: &str) -> (r: Option<usize>)
    requires
        i <= s@.len(),
    ensures
        r matches Some(j) ==> j == i + lit@.len() && j <= s@.len() && is_prefix(
            lit@,
            s@.skip(i as int),
        ),
        r is None ==> !is_prefix(lit@, s@.skip(i as int)),
{
    let n = s.unicode_len();
    let m = lit.unicode_len();
    if m > n - i {
        return None;
    }
    let mut k: usize = 0;
    while k < m
        invariant
            k <= m,
            m == lit@.len(),
            n == s@.len(),
            i + m <= n,
            forall|j: int| 0 <= j < k ==> s@[i + j] == lit@[j],
        decreases m - k,
    {
        if s.get_char(i + k) != lit.get_char(k) {
            proof {
                if is_prefix(lit@, s@.skip(i as int)) {
                    assert(s@.skip(i as int).subrange(0, m as int)[k as int] == lit@[k as int]);
                    assert(s@.skip(i as int)[k as int] == s@[i + k]);
                }
            }
            return None;
        }
        k += 1;
    }
    proof {
        assert(s@.skip(i as int).subrange(0, m as int) =~= lit@);
    }
    Some(i + m)
}

/// Reads a quoted string's body starting at `i` (just past the opening
/// quote), undoing the escapes, up to and including the closing quote.
fn scan_qstr_exec(s: &str, i: usize) -> (r: Option<(String, usize)>)
    requires
        i <= s@.len(),
    ensures
        r matches Some(p) ==> scan_qstr(s@.skip(i as int)) == Some((p.0@, p.1 as nat)) && i + p.1
            <= s@.len(),
        r is None ==> scan_qstr(s@.skip(i as int)) is None,
{
    let n = s.unicode_len();
    let mut k: usize = i;
    let mut out = String::new();
    loop
        invariant
            i <= k <= n,
            n == s@.len(),
            match scan_qstr(s@.skip(k as int)) {
                Some(p) => scan_qstr(s@.skip(i as int)) == Some(
                    (out@ + p.0, ((k - i) as nat + p.1) as nat),
                ),
                None => scan_qstr(s@.skip(i as int)) is None,
            },
        decreases n - k,
    {
        if k >= n {
            proof {
                assert(s@.skip(k as int) =~= Seq::<char>::empty());
            }
            return None;
        }
        let c = s.get_char(k);
        proof {
            assert(s@.skip(k as int)[0] == s@[k as int]);
        }
        if c == '"' {
            proof {
                assert(scan_qstr(s@.skip(k as int)) == Some((Seq::<char>::empty(), 1nat)));
                assert(out@ + Seq::<char>::empty() =~= out@);
            }
            return Some((out, k + 1 - i));
        } else if c == '\\' {
            if k + 1 >= n {
                proof {
                    assert(s@.skip(k as int).len() == 1);
                }
                return None;
            }
            let d = s.get_char(k + 1);
            proof {
                let tk = s@.skip(k as int);
                assert(tk[1] == s@[k as int + 1]);
                assert(tk.subrange(2, tk.len() as int) =~= s@.skip(k as int + 2));
                match scan_qstr(s@.skip(k as int + 2)) {
                    Some(p) => {
                        assert(scan_qstr(tk) == Some((seq![d] + p.0, (p.1 + 2) as nat)));
                        assert(out@.push(d) + p.0 =~= out@ + (seq![d] + p.0));
                    },
                    None => {},
                }
            }
            push_char(&mut out, d);
            k = k + 2;
        } else {
            proof {
                let tk = s@.skip(k as int);
                assert(tk.subrange(1, tk.len() as int) =~= s@.skip(k as int + 1));
                match scan_qstr(s@.skip(k as int + 1)) {
                    Some(p) => {
                        assert(scan_qstr(tk) == Some((seq![c] + p.0, (p.1 + 1) as nat)));
                        assert(out@.push(c) + p.0 =~= out@ + (seq![c] + p.0));
                    },
                    None => {},
                }
            }
            push_char(&mut out, c);
            k = k + 1;
        }
    }
}

/// Reads the decimal number standing at position `i` of `s`.
fn scan_u128_exec(s: &str, i: usize) -> (r: Option<(u128, usize)>)
    requires
        i <= s@.len(),
    ensures
        r matches Some(p) ==> scan_u128(s@.skip(i as int)) == Some((p.0, p.1 as nat)) && i + p.1
            <= s@.len(),
        r is None ==> scan_u128(s@.skip(i as int)) is None,
{
    let ghost t = s@.skip(i as int);
    let n = s.unicode_len();
    let mut k: usize = i;
    while k < n && is_digit_exec(s.get_char(k))
        invariant
            i <= k <= n,
            n == s@.len(),
            t == s@.skip(i as int),
            forall|j: int| 0 <= j < k - i ==> is_digit(#[trigger] t[j]),
            digits_len(t) == (k - i) as nat + digits_len(s@.skip(k as int)),
        decreases n - k,
    {
        proof {
            let tk = s@.skip(k as int);
            assert(tk[0] == s@[k as int]);
            assert(tk.drop_first() =~= s@.skip(k as int + 1));
            assert(digits_len(tk) == 1 + digits_len(s@.skip(k as int + 1)));
            assert(t[(k - i) as int] == s@[k as int]);
        }
        k += 1;
    }
    proof {
        if k == n {
            assert(s@.skip(k as int) =~= Seq::<char>::empty());
            assert(digits_len(s@.skip(k as int)) == 0);
        } else {
            assert(s@.skip(k as int)[0] == s@[k as int]);
            assert(digits_len(s@.skip(k as int)) == 0);
        }
        assert(digits_len(t) == (k - i) as nat);
    }
    if k == i {
        return None;
    }
    let ghost run = t.subrange(0, (k - i) as int);
    let mut acc: u128 = 0;
    let mut j: usize = i;
    while j < k
        invariant
            i <= j <= k <= n,
            n == s@.len(),
            t == s@.skip(i as int),
            run == t.subrange(0, (k - i) as int),
            digits_len(t) == (k - i) as nat,
            forall|jj: int| 0 <= jj < k - i ==> is_digit(#[trigger] t[jj]),
            acc as nat == dec_val(t.subrange(0, (j - i) as int)),
        decreases k - j,
    {
        let c = s.get_char(j);
        proof {
            assert(t[(j - i) as int] == s@[j as int]);
        }
        let d = ((c as u32) - 48) as u128;
        proof {
            let pre = t.subrange(0, (j - i) as int);
            let cur = t.subrange(0, (j - i) as int + 1);
            assert(cur.drop_last() =~= pre);
            assert(cur.last() == t[(j - i) as int]);
            assert(dec_val(cur) == dec_val(pre) * 10 + digit_val(t[(j - i) as int]));
            assert(digit_val(t[(j - i) as int]) == d as nat);
        }
        if acc > (u128::MAX - d) / 10 {
            proof {
                let cur = t.subrange(0, (j - i) as int + 1);
                vstd::arithmetic::div_mod::lemma_fundamental_div_mod(
                    (u128::MAX - d as u128) as int,
                    10,
                );
                assert(dec_val(cur) > u128::MAX);
                lemma_dec_val_prefix(run, (j - i) as int + 1);
                assert(run.subrange(0, (j - i) as int + 1) =~= cur);
                assert(dec_val(run) > u128::MAX);
                assert(t.subrange(0, digits_len(t) as int) == run);
            }
            return None;
        }
        acc = acc * 10 + d;
        j += 1;
    }
    proof {
        assert(t.subrange(0, (k - i) as int) == run);
        assert(acc as nat == dec_val(run));
        assert(scan_u128(t) == Some((acc, (k - i) as nat)));
    }
    Some((acc, k - i))
}

/// Reads one stored block starting at position `i` of `s`.
#[verifier::rlimit(100)]
fn parse_block_exec(s: &str, i: usize) -> (r: Option<(Block, usize)>)
    requires
        i <= s@.len(),
    ensures
        r matches Some(p) ==> scan_block(s@.skip(i as int)) == Some((p.0@, p.1 as nat)) && i + p.1
            <= s@.len(),
        r is None ==> scan_block(s@.skip(i as int)) is None,
{
    proof {
        reveal(scan_block);
    }
    let n = s.unicode_len();
    let p1 = match expect_lit(s, i, "{\"timestamp\":") {
        None => {
            return None;
        },
        Some(j) => j,
    };
    proof {
        lemma_skip_skip(s@, i as int, "{\"timestamp\":"@.len() as int);
    }
    let (ts, n1) = match scan_u128_exec(s, p1) {
        None => {
            return None;
        },
        Some(p) => p,
    };
    let p2 = p1 + n1;
    let p3 = match expect_lit(s, p2, ",\"transaction\":{\"sender\":\"") {
        None => {
            proof {
                lemma_skip_skip(s@, i as int, (p2 - i) as int);
            }
            return None;
        },
        Some(j) => j,
    };
    proof {
        lemma_skip_skip(s@, i as int, (p2 - i) as int);
        lemma_skip_skip(s@, i as int, (p3 - i) as int);
    }
    let (sender, n2) = match scan_qstr_exec(s, p3) {
        None => {
            return None;
        },
        Some(p) => p,
    };
    let p4 = p3 + n2;
    let p5 = match expect_lit(s, p4, ",\"receiver\":\"") {
        None => {
            proof {
                lemma_skip_skip(s@, i as int, (p4 - i) as int);
            }
            return None;
        },
        Some(j) => j,
    };
    proof {
        lemma_skip_skip(s@, i as int, (p4 - i) as int);
        lemma_skip_skip(s@, i as int, (p5 - i) as int);
    }
    let (receiver, n3) = match scan_qstr_exec(s, p5) {
        None => {
            return None;
        },
        Some(p) => p,
    };
    let p6 = p5 + n3;
    let p7 = match expect_lit(s, p6, ",\"amount\":\"") {
        None => {
            proof {
                lemma_skip_skip(s@, i as int, (p6 - i) as int);
            }
            return None;
        },
        Some(j) => j,
    };
    proof {
        lemma_skip_skip(s@, i as int, (p6 - i) as int);
        lemma_skip_skip(s@, i as int, (p7 - i) as int);
    }
    let (amount, n4) = match scan_qstr_exec(s, p7) {
        None => {
            return None;
        },
        Some(p) => p,
    };
    let p8 = p7 + n4;
    let p9 = match expect_lit(s, p8, "},\"previous_hash\":\"") {
        None => {
            proof {
                lemma_skip_skip(s@, i as int, (p8 - i) as int);
            }
            return None;
        },
        Some(j) => j,
    };
    proof {
        lemma_skip_skip(s@, i as int, (p8 - i) as int);
        lemma_skip_skip(s@, i as int, (p9 - i) as int);
    }
    let (previous_hash, n5) = match scan_qstr_exec(s, p9) {
        None => {
            return None;
        },
        Some(p) => p,
    };
    let p10 = p9 + n5;
    let p11 = match expect_lit(s, p10, ",\"hash\":\"") {
        None => {
            proof {
                lemma_skip_skip(s@, i as int, (p10 - i) as int);
            }
            return None;
        },
        Some(j) => j,
    };
    proof {
        lemma_skip_skip(s@, i as int, (p10 - i) as int);
        lemma_skip_skip(s@, i as int, (p11 - i) as int);
    }
    let (hash, n6) = match scan_qstr_exec(s, p11) {
        None => {
            return None;
        },
        Some(p) => p,
    };
    let p12 = p11 + n6;
    let end = match expect_lit(s, p12, "}") {
        None => {
            proof {
                lemma_skip_skip(s@, i as int, (p12 - i) as int);
            }
            return None;
        },
        Some(j) => j,
    };
    proof {
        lemma_skip_skip(s@, i as int, (p12 - i) as int);
    }
    let block = Block {
        timestamp: ts,
        transaction: Transaction { sender, receiver, amount },
        previous_hash,
        hash,
    };
    Some((block, end - i))
}

/// Reads a whole stored chain: the text must be exactly one stored chain,
/// nothing before or after.
#[verifier::rlimit(100)]
fn parse_chain_raw(s: &str) -> (r: Option<Blockchain>)
    ensures
        r matches Some(c) ==> parse_chain_text(s@) == Some(c@),
        r is None ==> parse_chain_text(s@) is None,
{
    let n = s.unicode_len();
    let h = match expect_lit(s, 0, "{\"blocks\":[") {
        None => {
            proof {
                assert(s@.skip(0) =~= s@);
            }
            return None;
        },
        Some(j) => j,
    };
    proof {
        assert(s@.skip(0) =~= s@);
    }
    let ghost t = s@.skip(h as int);
    if n - h == 2 {
        match expect_lit(s, h, "]}") {
            Some(_) => {
                proof {
                    reveal_strlit("]}");
                    assert(t.subrange(0, 2) =~= t);
                    assert(t == "]}"@);
                }
                let chain = Blockchain { blocks: Vec::new() };
                proof {
                    assert(chain@ =~= Seq::<BlockView>::empty());
                }
                return Some(chain);
            },
            None => {},
        }
    }
    proof {
        reveal_strlit("]}");
        if t == "]}"@ {
            assert(t.len() == 2);
            assert(t.subrange(0, "]}"@.len() as int) =~= "]}"@);
            assert(is_prefix("]}"@, t));
            assert(false);
        }
    }
    let (b0, n1) = match parse_block_exec(s, h) {
        None => {
            return None;
        },
        Some(p) => p,
    };
    let base = h + n1;
    let mut blocks: Vec<Block> = Vec::new();
    let ghost bv0 = b0@;
    blocks.push(b0);
    let mut pos = base;
    loop
        invariant
            base <= pos <= n,
            n == s@.len(),
            h + n1 == base,
            blocks@.len() >= 1,
            blocks@[0]@ == bv0,
            scan_block(t) == Some((bv0, n1 as nat)),
            t == s@.skip(h as int),
            h <= n,
            is_prefix("{\"blocks\":["@, s@),
            h == "{\"blocks\":["@.len(),
            !(t == "]}"@),
            match scan_blocks_rest(s@.skip(pos as int)) {
                Some(p) => scan_blocks_rest(s@.skip(base as int)) == Some(
                    (
                        views_of(blocks@).drop_first() + p.0,
                        ((pos - base) as nat + p.1) as nat,
                    ),
                ),
                None => scan_blocks_rest(s@.skip(base as int)) is None,
            },
        ensures
            pos == n || s@[pos as int] != ',',
        decreases n - pos,
    {
        if pos >= n {
            break;
        }
        let c = s.get_char(pos);
        proof {
            assert(s@.skip(pos as int)[0] == s@[pos as int]);
        }
        if c != ',' {
            break;
        }
        let ghost old_blocks = blocks@;
        let ghost tp = s@.skip(pos as int);
        proof {
            assert(tp.len() > 0 && tp[0] == ',');
            assert(tp.skip(1) =~= s@.skip(pos as int + 1));
        }
        let (b, nb) = match parse_block_exec(s, pos + 1) {
            None => {
                proof {
                    assert(scan_blocks_rest(tp) is None);
                    assert(t.skip(n1 as int) =~= s@.skip(base as int));
                }
                return None;
            },
            Some(p) => p,
        };
        blocks.push(b);
        proof {
            assert(1 + (nb as nat) <= tp.len());
            assert(tp.skip((1 + nb) as int) =~= s@.skip((pos + 1 + nb) as int));
            assert(blocks@.drop_last() =~= old_blocks);
            assert(views_of(blocks@).drop_first() =~= views_of(old_blocks).drop_first() + seq![
                b@,
            ]);
            match scan_blocks_rest(s@.skip((pos + 1 + nb) as int)) {
                Some(p) => {
                    assert(scan_blocks_rest(tp) == Some(
                        (seq![b@] + p.0, (1 + nb as nat + p.1) as nat),
                    ));
                    assert(views_of(old_blocks).drop_first() + (seq![b@] + p.0) =~= views_of(
                        blocks@,
                    ).drop_first() + p.0);
                },
                None => {},
            }
        }
        pos = pos + 1 + nb;
    }
    proof {
        if pos == n {
            assert(s@.skip(pos as int) =~= Seq::<char>::empty());
            assert(scan_blocks_rest(s@.skip(pos as int)) == Some((Seq::<BlockView>::empty(), 0nat)));
        } else {
            assert(s@.skip(pos as int)[0] == s@[pos as int]);
            assert(scan_blocks_rest(s@.skip(pos as int)) == Some((Seq::<BlockView>::empty(), 0nat)));
        }
        assert(views_of(blocks@).drop_first() + Seq::<BlockView>::empty()
            =~= views_of(blocks@).drop_first());
    }
    let ghost m: nat = (pos - base) as nat;
    proof {
        assert(scan_blocks_rest(s@.skip(pos as int)) == Some((Seq::<BlockView>::empty(), 0nat)));
        assert(views_of(blocks@).drop_first() + Seq::<BlockView>::empty() == views_of(
            blocks@,
        ).drop_first());
        assert(scan_blocks_rest(s@.skip(base as int)) == Some(
            (views_of(blocks@).drop_first(), m),
        ));
        assert(t.skip(n1 as int) =~= s@.skip(base as int));
    }
    if n - pos != 2 {
        proof {
            assert(t.len() == n - h);
            assert(n1 as nat + m + 2 != t.len());
        }
        return None;
    }
    match expect_lit(s, pos, "]}") {
        None => {
            proof {
                assert(t.skip((n1 as nat + m) as int) =~= s@.skip(pos as int));
            }
            return None;
        },
        Some(_) => {},
    }
    proof {
        assert(t.skip((n1 as nat + m) as int) =~= s@.skip(pos as int));
        assert(t.len() == n1 as nat + m + 2);
    }
    let chain = Blockchain { blocks };
    proof {
        assert(chain@ =~= seq![bv0] + chain@.drop_first());
        assert(parse_chain_text(s@) == Some(chain@));
    }
    Some(chain)
}

/// Loads a chain from its stored text.
///
/// Exactly the texts that `encode_chain` produces load, and they load to
/// exactly the chain that was stored: nothing else is accepted, so corrupt
/// bytes are reported as no chain rather than as an empty one.
pub fn decode_chain(s: &str) -> (r: Option<Blockchain>)
    ensures
        r matches Some(c) ==> s@ == encode_chain_spec(c@),
        forall|bs: Seq<BlockView>| s@ == encode_chain_spec(bs) ==> (r matches Some(c) && c@ == bs),
{
    match parse_chain_raw(s) {
        None => {
            proof {
                assert forall|bs: Seq<BlockView>| s@ != encode_chain_spec(bs) by {
                    if s@ == encode_chain_spec(bs) {
                        lemma_parse_encode(bs);
                    }
                }
            }
            None
        },
        Some(c) => {
            let enc = encode_chain(&c);
            let s_own = String::from_str(s);
            if enc == s_own {
                proof {
                    assert forall|bs: Seq<BlockView>| s@ == encode_chain_spec(bs) implies c@
                        == bs by {
                        lemma_parse_encode(bs);
                    }
                }
                Some(c)
            } else {
                proof {
                    assert forall|bs: Seq<BlockView>| s@ != encode_chain_spec(bs) by {
                        if s@ == encode_chain_spec(bs) {
                            lemma_parse_encode(bs);
                            assert(c@ == bs);
                        }
                    }
                }
                None
            }
        },
    }
}

} // verus!
