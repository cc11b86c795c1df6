//! The wire protocol: one tagged message type, canonically encoded, sent
//! over any byte transport with an eight-byte big-endian length prefix.
use crate::codec::{
    decode_bool, decode_bytes, decode_i64, decode_str, decode_u32, decode_u64, enc_bool, enc_bytes,
    enc_i64, enc_str, enc_u32, enc_u64, encode_bool, encode_bytes, encode_i64, encode_str,
    encode_u32, encode_u64,
};
use crate::crypto::PublicKey;
use crate::types::block::{decode_block, enc_block, encode_block, Block, BlockV};
use crate::types::transaction::{
    decode_tx, decode_txout, enc_tx, enc_txout, encode_tx, encode_txout, Transaction,
    TransactionOutput, TxOutV, TxV,
};
use vstd::prelude::*;

verus! {

/// Ghost form of a message.
pub ghost enum MessageV {
    FetchUTXOs(Seq<u8>),
    UTXOs(Seq<(TxOutV, bool)>),
    SubmitTransaction(TxV),
    NewTransaction(TxV),
    FetchTemplate(Seq<u8>),
    Template(BlockV),
    ValidateTemplate(BlockV),
    TemplateValidity(bool),
    SubmitTemplate(BlockV),
    DiscoverNodes,
    NodeList(Seq<Seq<char>>),
    AskDifference(u32),
    Difference(i32),
    FetchBlock(usize),
    NewBlock(BlockV),
}

impl MessageV {
    pub open spec fn wf(self) -> bool {
        match self {
            MessageV::SubmitTransaction(t) => t.wf(),
            MessageV::NewTransaction(t) => t.wf(),
            MessageV::Template(b) => b.wf(),
            MessageV::ValidateTemplate(b) => b.wf(),
            MessageV::SubmitTemplate(b) => b.wf(),
            MessageV::NewBlock(b) => b.wf(),
            _ => true,
        }
    }
}

/// One protocol message. Reply variants must never be sent unsolicited.
pub enum Message {
    /// Ask for all UTXOs paying a public key.
    FetchUTXOs(PublicKey),
    /// The reply: outputs with their reservation marks.
    UTXOs(Vec<(TransactionOutput, bool)>),
    /// Hand a transaction to a node for admission and gossip.
    SubmitTransaction(Transaction),
    /// Gossip of a transaction between nodes.
    NewTransaction(Transaction),
    /// Ask for a block template paying the given key.
    FetchTemplate(PublicKey),
    /// The reply: the assembled template.
    Template(Block),
    /// Ask whether a template still extends the tip.
    ValidateTemplate(Block),
    /// The reply to a template validation.
    TemplateValidity(bool),
    /// Hand a mined template to a node.
    SubmitTemplate(Block),
    /// Ask a node for the peers it knows.
    DiscoverNodes,
    /// The reply: peer addresses.
    NodeList(Vec<String>),
    /// Ask how far a node's chain is ahead of the given height.
    AskDifference(u32),
    /// The reply, as a signed count.
    Difference(i32),
    /// Ask for the block at a height.
    FetchBlock(usize),
    /// Gossip of an accepted block.
    NewBlock(Block),
}

impl View for Message {
    type V = MessageV;

    open spec fn view(&self) -> MessageV {
        match self {
            Message::FetchUTXOs(pk) => MessageV::FetchUTXOs(pk@),
            Message::UTXOs(v) => MessageV::UTXOs(
                v@.map_values(|p: (TransactionOutput, bool)| (p.0@, p.1)),
            ),
            Message::SubmitTransaction(t) => MessageV::SubmitTransaction(t@),
            Message::NewTransaction(t) => MessageV::NewTransaction(t@),
            Message::FetchTemplate(pk) => MessageV::FetchTemplate(pk@),
            Message::Template(b) => MessageV::Template(b@),
            Message::ValidateTemplate(b) => MessageV::ValidateTemplate(b@),
            Message::TemplateValidity(v) => MessageV::TemplateValidity(*v),
            Message::SubmitTemplate(b) => MessageV::SubmitTemplate(b@),
            Message::DiscoverNodes => MessageV::DiscoverNodes,
            Message::NodeList(v) => MessageV::NodeList(v@.map_values(|s: String| s@)),
            Message::AskDifference(h) => MessageV::AskDifference(*h),
            Message::Difference(d) => MessageV::Difference(*d),
            Message::FetchBlock(h) => MessageV::FetchBlock(*h),
            Message::NewBlock(b) => MessageV::NewBlock(b@),
        }
    }
}

/// Canonical bytes of one output-and-mark pair.
pub open spec fn enc_outpair(p: (TxOutV, bool)) -> Seq<u8> {
    enc_txout(p.0) + enc_bool(p.1)
}

/// Canonical bytes of an output-and-mark list, without a count.
pub open spec fn enc_outpair_seq(s: Seq<(TxOutV, bool)>) -> Seq<u8>
    decreases s.len(),
{
    if s.len() == 0 {
        Seq::empty()
    } else {
        enc_outpair(s.first()) + enc_outpair_seq(s.drop_first())
    }
}

/// Canonical bytes of a string list, without a count.
pub open spec fn enc_str_seq(s: Seq<Seq<char>>) -> Seq<u8>
    decreases s.len(),
{
    if s.len() == 0 {
        Seq::empty()
    } else {
        enc_str(s.first()) + enc_str_seq(s.drop_first())
    }
}

/// Canonical bytes of a message: one tag byte, then the payload.
pub open spec fn enc_msg(m: MessageV) -> Seq<u8> {
    match m {
        MessageV::FetchUTXOs(pk) => seq![0u8] + enc_bytes(pk),
        MessageV::UTXOs(v) => seq![1u8] + enc_u64(v.len() as u64) + enc_outpair_seq(v),
        MessageV::SubmitTransaction(t) => seq![2u8] + enc_tx(t),
        MessageV::NewTransaction(t) => seq![3u8] + enc_tx(t),
        MessageV::FetchTemplate(pk) => seq![4u8] + enc_bytes(pk),
        MessageV::Template(b) => seq![5u8] + enc_block(b),
        MessageV::ValidateTemplate(b) => seq![6u8] + enc_block(b),
        MessageV::TemplateValidity(v) => seq![7u8] + enc_bool(v),
        MessageV::SubmitTemplate(b) => seq![8u8] + enc_block(b),
        MessageV::DiscoverNodes => seq![9u8],
        MessageV::NodeList(v) => seq![10u8] + enc_u64(v.len() as u64) + enc_str_seq(v),
        MessageV::AskDifference(h) => seq![11u8] + enc_u32(h),
        MessageV::Difference(d) => seq![12u8] + enc_i64(d as i64),
        MessageV::FetchBlock(h) => seq![13u8] + enc_u64(h as u64),
        MessageV::NewBlock(b) => seq![14u8] + enc_block(b),
    }
}

impl Message {
    /// The canonical bytes of this message.
    pub fn encode(&self) -> (r: Vec<u8>)
        ensures
            r@ == enc_msg(self@),
    {
        let mut out: Vec<u8> = Vec::new();
        match self {
            Message::FetchUTXOs(pk) => {
                out.push(0u8);
                encode_bytes(&mut out, pk.as_bytes());
            },
            Message::UTXOs(v) => {
                out.push(1u8);
                encode_u64(&mut out, v.len() as u64);
                let ghost pv = v@.map_values(|p: (TransactionOutput, bool)| (p.0@, p.1));
                let ghost mid = out@;
                let mut i: usize = 0;
                while i < v.len()
                    invariant
                        i <= v@.len(),
                        pv == v@.map_values(|p: (TransactionOutput, bool)| (p.0@, p.1)),
                        out@ == mid + enc_outpair_seq(pv.take(i as int)),
                    decreases v@.len() - i,
                {
                    encode_txout(&mut out, &v[i].0);
                    encode_bool(&mut out, v[i].1);
                    proof {
                        lemma_enc_outpair_seq_snoc(pv, i as int);
                        assert(out@ =~= mid + enc_outpair_seq(pv.take(i + 1)));
                    }
                    i = i + 1;
                }
                proof {
                    assert(pv.take(pv.len() as int) =~= pv);
                }
            },
            Message::SubmitTransaction(t) => {
                out.push(2u8);
                encode_tx(&mut out, t);
            },
            Message::NewTransaction(t) => {
                out.push(3u8);
                encode_tx(&mut out, t);
            },
            Message::FetchTemplate(pk) => {
                out.push(4u8);
                encode_bytes(&mut out, pk.as_bytes());
            },
            Message::Template(b) => {
                out.push(5u8);
                encode_block(&mut out, b);
            },
            Message::ValidateTemplate(b) => {
                out.push(6u8);
                encode_block(&mut out, b);
            },
            Message::TemplateValidity(v) => {
                out.push(7u8);
                encode_bool(&mut out, *v);
            },
            Message::SubmitTemplate(b) => {
                out.push(8u8);
                encode_block(&mut out, b);
            },
            Message::DiscoverNodes => {
                out.push(9u8);
            },
            Message::NodeList(v) => {
                out.push(10u8);
                encode_u64(&mut out, v.len() as u64);
                let ghost sv = v@.map_values(|s: String| s@);
                let ghost mid = out@;
                let mut i: usize = 0;
                while i < v.len()
                    invariant
                        i <= v@.len(),
                        sv == v@.map_values(|s: String| s@),
                        out@ == mid + enc_str_seq(sv.take(i as int)),
                    decreases v@.len() - i,
                {
                    encode_str(&mut out, &v[i]);
                    proof {
                        lemma_enc_str_seq_snoc(sv, i as int);
                        assert(out@ =~= mid + enc_str_seq(sv.take(i + 1)));
                    }
                    i = i + 1;
                }
                proof {
                    assert(sv.take(sv.len() as int) =~= sv);
                }
            },
            Message::AskDifference(h) => {
                out.push(11u8);
                encode_u32(&mut out, *h);
            },
            Message::Difference(d) => {
                out.push(12u8);
                encode_i64(&mut out, *d as i64);
            },
            Message::FetchBlock(h) => {
                out.push(13u8);
                encode_u64(&mut out, *h as u64);
            },
            Message::NewBlock(b) => {
                out.push(14u8);
                encode_block(&mut out, b);
            },
        }
        proof {
            assert(out@ =~= enc_msg(self@));
        }
        out
    }

    /// The message with its length prefix, ready for a byte transport.
    pub fn frame(&self) -> (r: Vec<u8>)
        ensures
            r@ == enc_bytes(enc_msg(self@)),
    {
        let payload = self.encode();
        let mut out: Vec<u8> = Vec::new();
        encode_bytes(&mut out, &payload);
        proof {
            assert(out@ =~= enc_bytes(enc_msg(self@)));
        }
        out
    }

    /// Reads a message back from its canonical bytes: recovers exactly
    /// what `encode` wrote, whatever follows it.
    pub fn decode(data: &Vec<u8>) -> (r: Option<Message>)
        ensures
            r matches Some(m) ==> m@.wf(),
            forall|mv: MessageV, rest: Seq<u8>|
                mv.wf() && data@ == #[trigger] (enc_msg(mv) + rest) ==> (r matches Some(m) && m@
                    == mv),
    {
        proof {
            assert(data@.skip(0) =~= data@);
        }
        match decode_message(data, 0) {
            Some((m, _)) => Some(m),
            None => None,
        }
    }
}

/// Extending a prefix of an output-pair list by one element extends its
/// bytes.
pub proof fn lemma_enc_outpair_seq_snoc(s: Seq<(TxOutV, bool)>, i: int)
    requires
        0 <= i < s.len(),
    ensures
        enc_outpair_seq(s.take(i + 1)) == enc_outpair_seq(s.take(i)) + enc_outpair(s[i]),
    decreases i,
{
    if i == 0 {
        assert(s.take(1).first() == s[0]);
        assert(s.take(1).drop_first() =~= Seq::<(TxOutV, bool)>::empty());
        assert(s.take(0) =~= Seq::<(TxOutV, bool)>::empty());
        assert(enc_outpair_seq(Seq::<(TxOutV, bool)>::empty()) == Seq::<u8>::empty());
        assert(enc_outpair_seq(s.take(1)) =~= enc_outpair(s[0]));
        assert(enc_outpair_seq(s.take(0)) + enc_outpair(s[0]) =~= enc_outpair(s[0]));
    } else {
        lemma_enc_outpair_seq_snoc(s.drop_first(), i - 1);
        assert(s.take(i + 1).first() == s[0]);
        assert(s.take(i + 1).drop_first() =~= s.drop_first().take(i));
        assert(s.take(i).first() == s[0]);
        assert(s.take(i).drop_first() =~= s.drop_first().take(i - 1));
        assert(s.drop_first()[i - 1] == s[i]);
        assert(enc_outpair(s[0]) + (enc_outpair_seq(s.drop_first().take(i - 1)) + enc_outpair(
            s[i],
        )) =~= (enc_outpair(s[0]) + enc_outpair_seq(s.drop_first().take(i - 1))) + enc_outpair(
            s[i],
        ));
    }
}

/// Extending a prefix of a string list by one element extends its bytes.
pub proof fn lemma_enc_str_seq_snoc(s: Seq<Seq<char>>, i: int)
    requires
        0 <= i < s.len(),
    ensures
        enc_str_seq(s.take(i + 1)) == enc_str_seq(s.take(i)) + enc_str(s[i]),
    decreases i,
{
    if i == 0 {
        assert(s.take(1).first() == s[0]);
        assert(s.take(1).drop_first() =~= Seq::<Seq<char>>::empty());
        assert(s.take(0) =~= Seq::<Seq<char>>::empty());
        assert(enc_str_seq(Seq::<Seq<char>>::empty()) == Seq::<u8>::empty());
        assert(enc_str_seq(s.take(1)) =~= enc_str(s[0]));
        assert(enc_str_seq(s.take(0)) + enc_str(s[0]) =~= enc_str(s[0]));
    } else {
        lemma_enc_str_seq_snoc(s.drop_first(), i - 1);
        assert(s.take(i + 1).first() == s[0]);
        assert(s.take(i + 1).drop_first() =~= s.drop_first().take(i));
        assert(s.take(i).first() == s[0]);
        assert(s.take(i).drop_first() =~= s.drop_first().take(i - 1));
        assert(s.drop_first()[i - 1] == s[i]);
        assert(enc_str(s[0]) + (enc_str_seq(s.drop_first().take(i - 1)) + enc_str(s[i])) =~= (
        enc_str(s[0]) + enc_str_seq(s.drop_first().take(i - 1))) + enc_str(s[i]));
    }
}

/// Reads back `n` output-and-mark pairs.
fn decode_outpair_list(buf: &Vec<u8>, pos: usize, n: u64) -> (r: Option<
    (Vec<(TransactionOutput, bool)>, usize),
>)
    requires
        pos <= buf@.len(),
    ensures
        r matches Some((v, p)) ==> pos <= p <= buf@.len() && v@.len() == n,
        forall|s: Seq<(TxOutV, bool)>, rest: Seq<u8>|
            s.len() == n && buf@.skip(pos as int) == #[trigger] (enc_outpair_seq(s) + rest) ==> (
            r matches Some((v, p)) && v@.map_values(|p2: (TransactionOutput, bool)| (p2.0@, p2.1))
                == s && p == pos + enc_outpair_seq(s).len()),
    decreases n,
{
    if n == 0 {
        let v: Vec<(TransactionOutput, bool)> = Vec::new();
        proof {
            assert(v@.map_values(|p2: (TransactionOutput, bool)| (p2.0@, p2.1)) =~= Seq::<
                (TxOutV, bool),
            >::empty());
            assert forall|s: Seq<(TxOutV, bool)>, rest: Seq<u8>|
                s.len() == 0 && buf@.skip(pos as int) == #[trigger] (enc_outpair_seq(s)
                    + rest) implies v@.map_values(|p2: (TransactionOutput, bool)| (p2.0@, p2.1))
                == s && enc_outpair_seq(s).len() == 0 by {
                assert(s =~= Seq::<(TxOutV, bool)>::empty());
            }
        }
        return Some((v, pos));
    }
    let o = match decode_txout(buf, pos) {
        Some(x) => x,
        None => {
            proof {
                assert forall|s: Seq<(TxOutV, bool)>, rest: Seq<u8>|
                    s.len() == n && buf@.skip(pos as int) == #[trigger] (enc_outpair_seq(s)
                        + rest) implies false by {
                    lemma_outpair_seq_head(buf@, pos as int, s, rest);
                }
            }
            return None;
        },
    };
    let (output, p1) = o;
    let bres = match decode_bool(buf, p1) {
        Some(x) => x,
        None => {
            proof {
                assert forall|s: Seq<(TxOutV, bool)>, rest: Seq<u8>|
                    s.len() == n && buf@.skip(pos as int) == #[trigger] (enc_outpair_seq(s)
                        + rest) implies false by {
                    lemma_outpair_seq_head(buf@, pos as int, s, rest);
                    crate::codec::lemma_skip_prefix(
                        buf@,
                        pos as int,
                        enc_txout(s.first().0),
                        enc_bool(s.first().1) + (enc_outpair_seq(s.drop_first()) + rest),
                    );
                    assert(buf@.skip(p1 as int).len() == buf@.len() - p1);
                    assert(buf@.skip(p1 as int)[0] == buf@[p1 as int]);
                    assert((enc_bool(s.first().1) + (enc_outpair_seq(s.drop_first()) + rest))[0]
                        == enc_bool(s.first().1)[0]);
                }
            }
            return None;
        },
    };
    let (marked, p2) = bres;
    match decode_outpair_list(buf, p2, n - 1) {
        None => {
            proof {
                assert forall|s: Seq<(TxOutV, bool)>, rest: Seq<u8>|
                    s.len() == n && buf@.skip(pos as int) == #[trigger] (enc_outpair_seq(s)
                        + rest) implies false by {
                    lemma_outpair_seq_head(buf@, pos as int, s, rest);
                    crate::codec::lemma_skip_prefix(
                        buf@,
                        pos as int,
                        enc_txout(s.first().0),
                        enc_bool(s.first().1) + (enc_outpair_seq(s.drop_first()) + rest),
                    );
                    crate::codec::lemma_skip_prefix(
                        buf@,
                        pos + enc_txout(s.first().0).len(),
                        enc_bool(s.first().1),
                        enc_outpair_seq(s.drop_first()) + rest,
                    );
                }
            }
            None
        },
        Some((mut v, p3)) => {
            let ghost tail_views = v@.map_values(|p2: (TransactionOutput, bool)| (p2.0@, p2.1));
            let ghost head_view = (output@, marked);
            v.insert(0, (output, marked));
            proof {
                assert(v@.map_values(|p2: (TransactionOutput, bool)| (p2.0@, p2.1))
                    =~= tail_views.insert(0, head_view));
                assert forall|s: Seq<(TxOutV, bool)>, rest: Seq<u8>|
                    s.len() == n && buf@.skip(pos as int) == #[trigger] (enc_outpair_seq(s)
                        + rest) implies v@.map_values(
                    |p2: (TransactionOutput, bool)| (p2.0@, p2.1),
                ) == s && p3 == pos + enc_outpair_seq(s).len() by {
                    lemma_outpair_seq_head(buf@, pos as int, s, rest);
                    crate::codec::lemma_skip_prefix(
                        buf@,
                        pos as int,
                        enc_txout(s.first().0),
                        enc_bool(s.first().1) + (enc_outpair_seq(s.drop_first()) + rest),
                    );
                    crate::codec::lemma_skip_prefix(
                        buf@,
                        pos + enc_txout(s.first().0).len(),
                        enc_bool(s.first().1),
                        enc_outpair_seq(s.drop_first()) + rest,
                    );
                    assert(buf@.skip(p1 as int).len() == buf@.len() - p1);
                    assert(buf@.skip(p1 as int)[0] == buf@[p1 as int]);
                    assert((enc_bool(s.first().1) + (enc_outpair_seq(s.drop_first()) + rest))[0]
                        == enc_bool(s.first().1)[0]);
                    assert(marked == s.first().1);
                    assert(s.drop_first().len() == n - 1);
                    assert(tail_views == s.drop_first());
                    assert(v@.map_values(|p2: (TransactionOutput, bool)| (p2.0@, p2.1)) =~= s);
                }
            }
            Some((v, p3))
        },
    }
}

/// Splitting the encoding of a non-empty output-pair list at its first
/// element.
proof fn lemma_outpair_seq_head(b: Seq<u8>, pos: int, s: Seq<(TxOutV, bool)>, rest: Seq<u8>)
    requires
        0 <= pos <= b.len(),
        s.len() > 0,
        b.skip(pos) == enc_outpair_seq(s) + rest,
    ensures
        b.skip(pos) == enc_txout(s.first().0) + (enc_bool(s.first().1) + (enc_outpair_seq(
            s.drop_first(),
        ) + rest)),
        enc_outpair_seq(s).len() == enc_txout(s.first().0).len() + 1 + enc_outpair_seq(
            s.drop_first(),
        ).len(),
{
    assert(enc_outpair_seq(s) == enc_outpair(s.first()) + enc_outpair_seq(s.drop_first()));
    assert(enc_outpair(s.first()) == enc_txout(s.first().0) + enc_bool(s.first().1));
    assert((enc_outpair(s.first()) + enc_outpair_seq(s.drop_first())) + rest =~= enc_txout(
        s.first().0,
    ) + (enc_bool(s.first().1) + (enc_outpair_seq(s.drop_first()) + rest)));
}

/// Reads back `n` strings.
fn decode_str_list(buf: &Vec<u8>, pos: usize, n: u64) -> (r: Option<(Vec<String>, usize)>)
    requires
        pos <= buf@.len(),
    ensures
        r matches Some((v, p)) ==> pos <= p <= buf@.len() && v@.len() == n,
        forall|s: Seq<Seq<char>>, rest: Seq<u8>|
            s.len() == n && buf@.skip(pos as int) == #[trigger] (enc_str_seq(s) + rest) ==> (
            r matches Some((v, p)) && v@.map_values(|x: String| x@) == s && p == pos + enc_str_seq(
                s,
            ).len()),
    decreases n,
{
    if n == 0 {
        let v: Vec<String> = Vec::new();
        proof {
            assert(v@.map_values(|x: String| x@) =~= Seq::<Seq<char>>::empty());
            assert forall|s: Seq<Seq<char>>, rest: Seq<u8>|
                s.len() == 0 && buf@.skip(pos as int) == #[trigger] (enc_str_seq(s)
                    + rest) implies v@.map_values(|x: String| x@) == s && enc_str_seq(s).len()
                == 0 by {
                assert(s =~= Seq::<Seq<char>>::empty());
            }
        }
        return Some((v, pos));
    }
    match decode_str(buf, pos) {
        None => {
            proof {
                assert forall|s: Seq<Seq<char>>, rest: Seq<u8>|
                    s.len() == n && buf@.skip(pos as int) == #[trigger] (enc_str_seq(s)
                        + rest) implies false by {
                    lemma_str_seq_head(buf@, pos as int, s, rest);
                }
            }
            None
        },
        Some((e, p1)) => {
            match decode_str_list(buf, p1, n - 1) {
                None => {
                    proof {
                        assert forall|s: Seq<Seq<char>>, rest: Seq<u8>|
                            s.len() == n && buf@.skip(pos as int) == #[trigger] (enc_str_seq(s)
                                + rest) implies false by {
                            lemma_str_seq_head(buf@, pos as int, s, rest);
                            crate::codec::lemma_skip_prefix(
                                buf@,
                                pos as int,
                                enc_str(s.first()),
                                enc_str_seq(s.drop_first()) + rest,
                            );
                            assert(s.drop_first().len() == n - 1);
                        }
                    }
                    None
                },
                Some((mut v, p2)) => {
                    let ghost tail_views = v@.map_values(|x: String| x@);
                    let ghost head_view = e@;
                    v.insert(0, e);
                    proof {
                        assert(v@.map_values(|x: String| x@) =~= tail_views.insert(0, head_view));
                        assert forall|s: Seq<Seq<char>>, rest: Seq<u8>|
                            s.len() == n && buf@.skip(pos as int) == #[trigger] (enc_str_seq(s)
                                + rest) implies v@.map_values(|x: String| x@) == s && p2 == pos
                            + enc_str_seq(s).len() by {
                            lemma_str_seq_head(buf@, pos as int, s, rest);
                            crate::codec::lemma_skip_prefix(
                                buf@,
                                pos as int,
                                enc_str(s.first()),
                                enc_str_seq(s.drop_first()) + rest,
                            );
                            assert(s.drop_first().len() == n - 1);
                            assert(tail_views == s.drop_first());
                            assert(v@.map_values(|x: String| x@) =~= s);
                        }
                    }
                    Some((v, p2))
                },
            }
        },
    }
}

/// Splitting the encoding of a non-empty string list at its first element.
proof fn lemma_str_seq_head(b: Seq<u8>, pos: int, s: Seq<Seq<char>>, rest: Seq<u8>)
    requires
        0 <= pos <= b.len(),
        s.len() > 0,
        b.skip(pos) == enc_str_seq(s) + rest,
    ensures
        b.skip(pos) == enc_str(s.first()) + (enc_str_seq(s.drop_first()) + rest),
        enc_str_seq(s).len() == enc_str(s.first()).len() + enc_str_seq(s.drop_first()).len(),
{
    assert(enc_str_seq(s) == enc_str(s.first()) + enc_str_seq(s.drop_first()));
    assert((enc_str(s.first()) + enc_str_seq(s.drop_first())) + rest =~= enc_str(s.first()) + (
    enc_str_seq(s.drop_first()) + rest));
}

/// The payload bytes of a message after its tag, in the shape each variant
/// writes.
proof fn lemma_msg_tag(b: Seq<u8>, pos: int, mv: MessageV, rest: Seq<u8>)
    requires
        0 <= pos <= b.len(),
        b.skip(pos) == enc_msg(mv) + rest,
    ensures
        pos < b.len(),
        b[pos] == enc_msg(mv)[0],
        b.skip(pos + 1) == enc_msg(mv).skip(1) + rest,
{
    assert(b.skip(pos).len() == b.len() - pos);
    assert(enc_msg(mv).len() >= 1);
    assert(b[pos] == b.skip(pos)[0]);
    assert((enc_msg(mv) + rest)[0] == enc_msg(mv)[0]);
    assert forall|j: int| 0 <= j < b.len() - pos - 1 implies #[trigger] b.skip(pos + 1)[j] == (
    enc_msg(mv).skip(1) + rest)[j] by {
        assert(b.skip(pos + 1)[j] == b.skip(pos)[j + 1]);
        if j < enc_msg(mv).len() - 1 {
            assert((enc_msg(mv) + rest)[j + 1] == enc_msg(mv)[j + 1]);
            assert(enc_msg(mv).skip(1)[j] == enc_msg(mv)[j + 1]);
        }
    }
    assert(b.skip(pos + 1) =~= enc_msg(mv).skip(1) + rest);
}

/// Reads back one message.
pub fn decode_message(buf: &Vec<u8>, pos: usize) -> (r: Option<(Message, usize)>)
    requires
        pos <= buf@.len(),
    ensures
        r matches Some((m, p)) ==> pos < p <= buf@.len() && m@.wf(),
        forall|mv: MessageV, rest: Seq<u8>|
            mv.wf() && buf@.skip(pos as int) == #[trigger] (enc_msg(mv) + rest) ==> (r matches Some(
                (m, p),
            ) && m@ == mv && p == pos + enc_msg(mv).len()),
{
    proof {
        crate::codec::lemma_buf_len_bound(buf);
        crate::numeric::lemma_pow256_units();
    }
    if pos >= buf.len() {
        proof {
            assert forall|mv: MessageV, rest: Seq<u8>|
                mv.wf() && buf@.skip(pos as int) == #[trigger] (enc_msg(mv) + rest) implies false by {
                lemma_msg_tag(buf@, pos as int, mv, rest);
            }
        }
        return None;
    }
    let tag = buf[pos];
    if tag <= 6 && tag != 1 {
        decode_message_payload(buf, pos, tag)
    } else if tag == 8 || tag == 14 {
        decode_message_payload(buf, pos, tag)
    } else {
        decode_message_simple(buf, pos, tag)
    }
}

/// Reads back the key-, transaction- and block-carrying messages.
#[verifier::rlimit(100)]
fn decode_message_payload(buf: &Vec<u8>, pos: usize, tag: u8) -> (r: Option<(Message, usize)>)
    requires
        pos < buf@.len(),
        buf@[pos as int] == tag,
        tag == 0 || tag == 4 || tag == 2 || tag == 3 || tag == 5 || tag == 6 || tag == 8 || tag
            == 14,
    ensures
        r matches Some((m, p)) ==> pos < p <= buf@.len() && m@.wf(),
        forall|mv: MessageV, rest: Seq<u8>|
            mv.wf() && buf@.skip(pos as int) == #[trigger] (enc_msg(mv) + rest) ==> (r matches Some(
                (m, p),
            ) && m@ == mv && p == pos + enc_msg(mv).len()),
{
    proof {
        crate::codec::lemma_buf_len_bound(buf);
        crate::numeric::lemma_pow256_units();
        vstd::std_specs::vec::axiom_spec_len(buf);
    }
    let p0 = pos + 1;
    proof {
        assert forall|mv: MessageV, rest: Seq<u8>|
            mv.wf() && buf@.skip(pos as int) == #[trigger] (enc_msg(mv) + rest) implies buf@.skip(
            p0 as int,
        ) == enc_msg(mv).skip(1) + rest && buf@[pos as int] == enc_msg(mv)[0] by {
            lemma_msg_tag(buf@, pos as int, mv, rest);
        }
    }
    if tag == 0 || tag == 4 {
        match decode_bytes(buf, p0) {
            Some((pk, p)) => {
                let key = PublicKey::from_bytes(pk);
                let m = if tag == 0 {
                    Message::FetchUTXOs(key)
                } else {
                    Message::FetchTemplate(key)
                };
                proof {
                    assert forall|mv: MessageV, rest: Seq<u8>|
                        mv.wf() && buf@.skip(pos as int) == #[trigger] (enc_msg(mv)
                            + rest) implies m@ == mv && p == pos + enc_msg(mv).len() by {
                        match mv {
                            MessageV::FetchUTXOs(pkv) => {
                                assert(enc_msg(mv).skip(1) =~= enc_bytes(pkv));
                                assert(buf@.skip(p0 as int) == enc_bytes(pkv) + rest);
                            },
                            MessageV::FetchTemplate(pkv) => {
                                assert(enc_msg(mv).skip(1) =~= enc_bytes(pkv));
                                assert(buf@.skip(p0 as int) == enc_bytes(pkv) + rest);
                            },
                            _ => {
                                assert(buf@[pos as int] == enc_msg(mv)[0]);
                            },
                        }
                    }
                }
                Some((m, p))
            },
            None => {
                proof {
                    assert forall|mv: MessageV, rest: Seq<u8>|
                        mv.wf() && buf@.skip(pos as int) == #[trigger] (enc_msg(mv)
                            + rest) implies false by {
                        match mv {
                            MessageV::FetchUTXOs(pkv) => {
                                assert(enc_msg(mv).skip(1) =~= enc_bytes(pkv));
                                assert(buf@.skip(p0 as int) == enc_bytes(pkv) + rest);
                            },
                            MessageV::FetchTemplate(pkv) => {
                                assert(enc_msg(mv).skip(1) =~= enc_bytes(pkv));
                                assert(buf@.skip(p0 as int) == enc_bytes(pkv) + rest);
                            },
                            _ => {
                                assert(buf@[pos as int] == enc_msg(mv)[0]);
                            },
                        }
                    }
                }
                None
            },
        }
    } else if tag == 2 || tag == 3 {
        match decode_tx(buf, p0) {
            Some((t, p)) => {
                let m = if tag == 2 {
                    Message::SubmitTransaction(t)
                } else {
                    Message::NewTransaction(t)
                };
                proof {
                    assert forall|mv: MessageV, rest: Seq<u8>|
                        mv.wf() && buf@.skip(pos as int) == #[trigger] (enc_msg(mv)
                            + rest) implies m@ == mv && p == pos + enc_msg(mv).len() by {
                        match mv {
                            MessageV::SubmitTransaction(t2) => {
                                assert(enc_msg(mv).skip(1) =~= enc_tx(t2));
                                assert(buf@.skip(p0 as int) == enc_tx(t2) + rest);
                            },
                            MessageV::NewTransaction(t2) => {
                                assert(enc_msg(mv).skip(1) =~= enc_tx(t2));
                                assert(buf@.skip(p0 as int) == enc_tx(t2) + rest);
                            },
                            _ => {
                                assert(buf@[pos as int] == enc_msg(mv)[0]);
                            },
                        }
                    }
                }
                Some((m, p))
            },
            None => {
                proof {
                    assert forall|mv: MessageV, rest: Seq<u8>|
                        mv.wf() && buf@.skip(pos as int) == #[trigger] (enc_msg(mv)
                            + rest) implies false by {
                        match mv {
                            MessageV::SubmitTransaction(t2) => {
                                assert(enc_msg(mv).skip(1) =~= enc_tx(t2));
                                assert(buf@.skip(p0 as int) == enc_tx(t2) + rest);
                            },
                            MessageV::NewTransaction(t2) => {
                                assert(enc_msg(mv).skip(1) =~= enc_tx(t2));
                                assert(buf@.skip(p0 as int) == enc_tx(t2) + rest);
                            },
                            _ => {
                                assert(buf@[pos as int] == enc_msg(mv)[0]);
                            },
                        }
                    }
                }
                None
            },
        }
    } else if tag == 5 || tag == 6 || tag == 8 || tag == 14 {
        match decode_block(buf, p0) {
            Some((b, p)) => {
                let m = if tag == 5 {
                    Message::Template(b)
                } else if tag == 6 {
                    Message::ValidateTemplate(b)
                } else if tag == 8 {
                    Message::SubmitTemplate(b)
                } else {
                    Message::NewBlock(b)
                };
                proof {
                    assert forall|mv: MessageV, rest: Seq<u8>|
                        mv.wf() && buf@.skip(pos as int) == #[trigger] (enc_msg(mv)
                            + rest) implies m@ == mv && p == pos + enc_msg(mv).len() by {
                        match mv {
                            MessageV::Template(b2) => {
                                assert(enc_msg(mv).skip(1) =~= enc_block(b2));
                                assert(buf@.skip(p0 as int) == enc_block(b2) + rest);
                            },
                            MessageV::ValidateTemplate(b2) => {
                                assert(enc_msg(mv).skip(1) =~= enc_block(b2));
                                assert(buf@.skip(p0 as int) == enc_block(b2) + rest);
                            },
                            MessageV::SubmitTemplate(b2) => {
                                assert(enc_msg(mv).skip(1) =~= enc_block(b2));
                                assert(buf@.skip(p0 as int) == enc_block(b2) + rest);
                            },
                            MessageV::NewBlock(b2) => {
                                assert(enc_msg(mv).skip(1) =~= enc_block(b2));
                                assert(buf@.skip(p0 as int) == enc_block(b2) + rest);
                            },
                            _ => {
                                assert(buf@[pos as int] == enc_msg(mv)[0]);
                            },
                        }
                    }
                }
                Some((m, p))
            },
            None => {
                proof {
                    assert forall|mv: MessageV, rest: Seq<u8>|
                        mv.wf() && buf@.skip(pos as int) == #[trigger] (enc_msg(mv)
                            + rest) implies false by {
                        match mv {
                            MessageV::Template(b2) => {
                                assert(enc_msg(mv).skip(1) =~= enc_block(b2));
                                assert(buf@.skip(p0 as int) == enc_block(b2) + rest);
                            },
                            MessageV::ValidateTemplate(b2) => {
                                assert(enc_msg(mv).skip(1) =~= enc_block(b2));
                                assert(buf@.skip(p0 as int) == enc_block(b2) + rest);
                            },
                            MessageV::SubmitTemplate(b2) => {
                                assert(enc_msg(mv).skip(1) =~= enc_block(b2));
                                assert(buf@.skip(p0 as int) == enc_block(b2) + rest);
                            },
                            MessageV::NewBlock(b2) => {
                                assert(enc_msg(mv).skip(1) =~= enc_block(b2));
                                assert(buf@.skip(p0 as int) == enc_block(b2) + rest);
                            },
                            _ => {
                                assert(buf@[pos as int] == enc_msg(mv)[0]);
                            },
                        }
                    }
                }
                None
            },
        }
    } else {
        proof {
            assert forall|mv: MessageV, rest: Seq<u8>|
                mv.wf() && buf@.skip(pos as int) == #[trigger] (enc_msg(mv) + rest) implies false by {
                assert(buf@[pos as int] == enc_msg(mv)[0]);
            }
        }
        None
    }
}

/// Reads back the scalar-carrying and counted-list messages.
#[verifier::rlimit(100)]
fn decode_message_simple(buf: &Vec<u8>, pos: usize, tag: u8) -> (r: Option<(Message, usize)>)
    requires
        pos < buf@.len(),
        buf@[pos as int] == tag,
        !(tag == 0 || tag == 4 || tag == 2 || tag == 3 || tag == 5 || tag == 6 || tag == 8 || tag
            == 14),
    ensures
        r matches Some((m, p)) ==> pos < p <= buf@.len() && m@.wf(),
        forall|mv: MessageV, rest: Seq<u8>|
            mv.wf() && buf@.skip(pos as int) == #[trigger] (enc_msg(mv) + rest) ==> (r matches Some(
                (m, p),
            ) && m@ == mv && p == pos + enc_msg(mv).len()),
{
    proof {
        crate::codec::lemma_buf_len_bound(buf);
        crate::numeric::lemma_pow256_units();
        vstd::std_specs::vec::axiom_spec_len(buf);
    }
    let p0 = pos + 1;
    proof {
        assert forall|mv: MessageV, rest: Seq<u8>|
            mv.wf() && buf@.skip(pos as int) == #[trigger] (enc_msg(mv) + rest) implies buf@.skip(
            p0 as int,
        ) == enc_msg(mv).skip(1) + rest && buf@[pos as int] == enc_msg(mv)[0] by {
            lemma_msg_tag(buf@, pos as int, mv, rest);
        }
    }
    if false {
        None
    } else if tag == 7 {
        match decode_bool(buf, p0) {
            Some((v, p)) => {
                let m = Message::TemplateValidity(v);
                proof {
                    assert forall|mv: MessageV, rest: Seq<u8>|
                        mv.wf() && buf@.skip(pos as int) == #[trigger] (enc_msg(mv)
                            + rest) implies m@ == mv && p == pos + enc_msg(mv).len() by {
                        match mv {
                            MessageV::TemplateValidity(x) => {
                                assert(enc_msg(mv).skip(1) =~= enc_bool(x));
                                assert(buf@.skip(p0 as int).len() == buf@.len() - p0);
                                assert(buf@.skip(p0 as int)[0] == buf@[p0 as int]);
                                assert((enc_bool(x) + rest)[0] == enc_bool(x)[0]);
                            },
                            _ => {
                                assert(buf@[pos as int] == enc_msg(mv)[0]);
                            },
                        }
                    }
                }
                Some((m, p))
            },
            None => {
                proof {
                    assert forall|mv: MessageV, rest: Seq<u8>|
                        mv.wf() && buf@.skip(pos as int) == #[trigger] (enc_msg(mv)
                            + rest) implies false by {
                        match mv {
                            MessageV::TemplateValidity(x) => {
                                assert(enc_msg(mv).skip(1) =~= enc_bool(x));
                                assert(buf@.skip(p0 as int).len() == buf@.len() - p0);
                                assert(buf@.skip(p0 as int)[0] == buf@[p0 as int]);
                                assert((enc_bool(x) + rest)[0] == enc_bool(x)[0]);
                            },
                            _ => {
                                assert(buf@[pos as int] == enc_msg(mv)[0]);
                            },
                        }
                    }
                }
                None
            },
        }
    } else if tag == 9 {
        let m = Message::DiscoverNodes;
        proof {
            assert forall|mv: MessageV, rest: Seq<u8>|
                mv.wf() && buf@.skip(pos as int) == #[trigger] (enc_msg(mv) + rest) implies m@ == mv
                && p0 == pos + enc_msg(mv).len() by {
                match mv {
                    MessageV::DiscoverNodes => {
                        assert(enc_msg(mv).len() == 1);
                    },
                    _ => {
                        assert(buf@[pos as int] == enc_msg(mv)[0]);
                    },
                }
            }
        }
        Some((m, p0))
    } else if tag == 11 {
        match decode_u32(buf, p0) {
            Some((v, p)) => {
                let m = Message::AskDifference(v);
                proof {
                    assert forall|mv: MessageV, rest: Seq<u8>|
                        mv.wf() && buf@.skip(pos as int) == #[trigger] (enc_msg(mv)
                            + rest) implies m@ == mv && p == pos + enc_msg(mv).len() by {
                        match mv {
                            MessageV::AskDifference(x) => {
                                assert(enc_msg(mv).skip(1) =~= enc_u32(x));
                                lemma_sub_eq(buf@, p0 as int, enc_u32(x), rest, 4);
                                crate::numeric::lemma_bytes_of_exact(x as nat, 4);
                            },
                            _ => {
                                assert(buf@[pos as int] == enc_msg(mv)[0]);
                            },
                        }
                    }
                }
                Some((m, p))
            },
            None => {
                proof {
                    assert forall|mv: MessageV, rest: Seq<u8>|
                        mv.wf() && buf@.skip(pos as int) == #[trigger] (enc_msg(mv)
                            + rest) implies false by {
                        match mv {
                            MessageV::AskDifference(x) => {
                                assert(enc_msg(mv).skip(1) =~= enc_u32(x));
                                assert(buf@.skip(p0 as int).len() == buf@.len() - p0);
                            },
                            _ => {
                                assert(buf@[pos as int] == enc_msg(mv)[0]);
                            },
                        }
                    }
                }
                None
            },
        }
    } else if tag == 12 || tag == 13 {
        decode_message_signed(buf, pos, tag)
    } else if tag == 1 || tag == 10 {
        decode_message_lists(buf, pos, tag)
    } else {
        proof {
            assert forall|mv: MessageV, rest: Seq<u8>|
                mv.wf() && buf@.skip(pos as int) == #[trigger] (enc_msg(mv) + rest) implies false by {
                assert(buf@[pos as int] == enc_msg(mv)[0]);
            }
        }
        None
    }
}

/// Reads back the signed-difference and block-height messages.
#[verifier::rlimit(100)]
fn decode_message_signed(buf: &Vec<u8>, pos: usize, tag: u8) -> (r: Option<(Message, usize)>)
    requires
        pos < buf@.len(),
        buf@[pos as int] == tag,
        tag == 12 || tag == 13,
    ensures
        r matches Some((m, p)) ==> pos < p <= buf@.len() && m@.wf(),
        forall|mv: MessageV, rest: Seq<u8>|
            mv.wf() && buf@.skip(pos as int) == #[trigger] (enc_msg(mv) + rest) ==> (r matches Some(
                (m, p),
            ) && m@ == mv && p == pos + enc_msg(mv).len()),
{
    proof {
        crate::codec::lemma_buf_len_bound(buf);
        crate::numeric::lemma_pow256_units();
        vstd::std_specs::vec::axiom_spec_len(buf);
    }
    let p0 = pos + 1;
    proof {
        assert forall|mv: MessageV, rest: Seq<u8>|
            mv.wf() && buf@.skip(pos as int) == #[trigger] (enc_msg(mv) + rest) implies buf@.skip(
            p0 as int,
        ) == enc_msg(mv).skip(1) + rest && buf@[pos as int] == enc_msg(mv)[0] by {
            lemma_msg_tag(buf@, pos as int, mv, rest);
        }
    }
    if false {
        None
    } else if tag == 12 {
        match decode_i64(buf, p0) {
            Some((v, p)) => {
                if v < -0x8000_0000i64 || v > 0x7FFF_FFFFi64 {
                    proof {
                        assert forall|mv: MessageV, rest: Seq<u8>|
                            mv.wf() && buf@.skip(pos as int) == #[trigger] (enc_msg(mv)
                                + rest) implies false by {
                            match mv {
                                MessageV::Difference(x) => {
                                    assert(enc_msg(mv).skip(1) =~= enc_i64(x as i64));
                                },
                                _ => {
                                    assert(buf@[pos as int] == enc_msg(mv)[0]);
                                },
                            }
                        }
                    }
                    return None;
                }
                let m = Message::Difference(v as i32);
                proof {
                    assert forall|mv: MessageV, rest: Seq<u8>|
                        mv.wf() && buf@.skip(pos as int) == #[trigger] (enc_msg(mv)
                            + rest) implies m@ == mv && p == pos + enc_msg(mv).len() by {
                        match mv {
                            MessageV::Difference(x) => {
                                assert(enc_msg(mv).skip(1) =~= enc_i64(x as i64));
                            },
                            _ => {
                                assert(buf@[pos as int] == enc_msg(mv)[0]);
                            },
                        }
                    }
                }
                Some((m, p))
            },
            None => {
                proof {
                    assert forall|mv: MessageV, rest: Seq<u8>|
                        mv.wf() && buf@.skip(pos as int) == #[trigger] (enc_msg(mv)
                            + rest) implies false by {
                        match mv {
                            MessageV::Difference(x) => {
                                assert(enc_msg(mv).skip(1) =~= enc_i64(x as i64));
                            },
                            _ => {
                                assert(buf@[pos as int] == enc_msg(mv)[0]);
                            },
                        }
                    }
                }
                None
            },
        }
    } else if tag == 13 {
        match decode_u64(buf, p0) {
            Some((v, p)) => {
                if v > (usize::MAX as u64) {
                    proof {
                        assert forall|mv: MessageV, rest: Seq<u8>|
                            mv.wf() && buf@.skip(pos as int) == #[trigger] (enc_msg(mv)
                                + rest) implies false by {
                            match mv {
                                MessageV::FetchBlock(x) => {
                                    assert(enc_msg(mv).skip(1) =~= enc_u64(x as u64));
                                    lemma_sub_eq(buf@, p0 as int, enc_u64(x as u64), rest, 8);
                                    crate::numeric::lemma_bytes_of_exact(x as nat, 8);
                                },
                                _ => {
                                    assert(buf@[pos as int] == enc_msg(mv)[0]);
                                },
                            }
                        }
                    }
                    return None;
                }
                let m = Message::FetchBlock(v as usize);
                proof {
                    assert forall|mv: MessageV, rest: Seq<u8>|
                        mv.wf() && buf@.skip(pos as int) == #[trigger] (enc_msg(mv)
                            + rest) implies m@ == mv && p == pos + enc_msg(mv).len() by {
                        match mv {
                            MessageV::FetchBlock(x) => {
                                assert(enc_msg(mv).skip(1) =~= enc_u64(x as u64));
                                lemma_sub_eq(buf@, p0 as int, enc_u64(x as u64), rest, 8);
                                crate::numeric::lemma_bytes_of_exact(x as nat, 8);
                            },
                            _ => {
                                assert(buf@[pos as int] == enc_msg(mv)[0]);
                            },
                        }
                    }
                }
                Some((m, p))
            },
            None => {
                proof {
                    assert forall|mv: MessageV, rest: Seq<u8>|
                        mv.wf() && buf@.skip(pos as int) == #[trigger] (enc_msg(mv)
                            + rest) implies false by {
                        match mv {
                            MessageV::FetchBlock(x) => {
                                assert(enc_msg(mv).skip(1) =~= enc_u64(x as u64));
                                assert(buf@.skip(p0 as int).len() == buf@.len() - p0);
                            },
                            _ => {
                                assert(buf@[pos as int] == enc_msg(mv)[0]);
                            },
                        }
                    }
                }
                None
            },
        }
    } else {
        proof {
            assert forall|mv: MessageV, rest: Seq<u8>|
                mv.wf() && buf@.skip(pos as int) == #[trigger] (enc_msg(mv) + rest) implies false by {
                assert(buf@[pos as int] == enc_msg(mv)[0]);
            }
        }
        None
    }
}

/// Reads back the counted-list messages.
#[verifier::rlimit(100)]
fn decode_message_lists(buf: &Vec<u8>, pos: usize, tag: u8) -> (r: Option<(Message, usize)>)
    requires
        pos < buf@.len(),
        buf@[pos as int] == tag,
        tag == 1 || tag == 10,
    ensures
        r matches Some((m, p)) ==> pos < p <= buf@.len() && m@.wf(),
        forall|mv: MessageV, rest: Seq<u8>|
            mv.wf() && buf@.skip(pos as int) == #[trigger] (enc_msg(mv) + rest) ==> (r matches Some(
                (m, p),
            ) && m@ == mv && p == pos + enc_msg(mv).len()),
{
    proof {
        crate::codec::lemma_buf_len_bound(buf);
        crate::numeric::lemma_pow256_units();
        vstd::std_specs::vec::axiom_spec_len(buf);
    }
    let p0 = pos + 1;
    proof {
        assert forall|mv: MessageV, rest: Seq<u8>|
            mv.wf() && buf@.skip(pos as int) == #[trigger] (enc_msg(mv) + rest) implies buf@.skip(
            p0 as int,
        ) == enc_msg(mv).skip(1) + rest && buf@[pos as int] == enc_msg(mv)[0] by {
            lemma_msg_tag(buf@, pos as int, mv, rest);
        }
    }
    if false {
        None
    } else if tag == 1 {
        let cnt = match decode_u64(buf, p0) {
            Some(x) => x,
            None => {
                proof {
                    assert forall|mv: MessageV, rest: Seq<u8>|
                        mv.wf() && buf@.skip(pos as int) == #[trigger] (enc_msg(mv)
                            + rest) implies false by {
                        match mv {
                            MessageV::UTXOs(v2) => {
                                lemma_utxos_msg(buf@, pos as int, mv, v2, rest);
                            },
                            _ => {
                                assert(buf@[pos as int] == enc_msg(mv)[0]);
                            },
                        }
                    }
                }
                return None;
            },
        };
        let (n, p1) = cnt;
        match decode_outpair_list(buf, p1, n) {
            Some((v, p)) => {
                let m = Message::UTXOs(v);
                proof {
                    assert forall|mv: MessageV, rest: Seq<u8>|
                        mv.wf() && buf@.skip(pos as int) == #[trigger] (enc_msg(mv)
                            + rest) implies m@ == mv && p == pos + enc_msg(mv).len() by {
                        match mv {
                            MessageV::UTXOs(v2) => {
                                lemma_utxos_msg(buf@, pos as int, mv, v2, rest);
                                crate::numeric::lemma_bytes_of_exact(v2.len(), 8);
                            },
                            _ => {
                                assert(buf@[pos as int] == enc_msg(mv)[0]);
                            },
                        }
                    }
                }
                Some((m, p))
            },
            None => {
                proof {
                    assert forall|mv: MessageV, rest: Seq<u8>|
                        mv.wf() && buf@.skip(pos as int) == #[trigger] (enc_msg(mv)
                            + rest) implies false by {
                        match mv {
                            MessageV::UTXOs(v2) => {
                                lemma_utxos_msg(buf@, pos as int, mv, v2, rest);
                                crate::numeric::lemma_bytes_of_exact(v2.len(), 8);
                            },
                            _ => {
                                assert(buf@[pos as int] == enc_msg(mv)[0]);
                            },
                        }
                    }
                }
                None
            },
        }
    } else if tag == 10 {
        let cnt = match decode_u64(buf, p0) {
            Some(x) => x,
            None => {
                proof {
                    assert forall|mv: MessageV, rest: Seq<u8>|
                        mv.wf() && buf@.skip(pos as int) == #[trigger] (enc_msg(mv)
                            + rest) implies false by {
                        match mv {
                            MessageV::NodeList(v2) => {
                                lemma_nodelist_msg(buf@, pos as int, mv, v2, rest);
                            },
                            _ => {
                                assert(buf@[pos as int] == enc_msg(mv)[0]);
                            },
                        }
                    }
                }
                return None;
            },
        };
        let (n, p1) = cnt;
        match decode_str_list(buf, p1, n) {
            Some((v, p)) => {
                let m = Message::NodeList(v);
                proof {
                    assert forall|mv: MessageV, rest: Seq<u8>|
                        mv.wf() && buf@.skip(pos as int) == #[trigger] (enc_msg(mv)
                            + rest) implies m@ == mv && p == pos + enc_msg(mv).len() by {
                        match mv {
                            MessageV::NodeList(v2) => {
                                lemma_nodelist_msg(buf@, pos as int, mv, v2, rest);
                                crate::numeric::lemma_bytes_of_exact(v2.len(), 8);
                            },
                            _ => {
                                assert(buf@[pos as int] == enc_msg(mv)[0]);
                            },
                        }
                    }
                }
                Some((m, p))
            },
            None => {
                proof {
                    assert forall|mv: MessageV, rest: Seq<u8>|
                        mv.wf() && buf@.skip(pos as int) == #[trigger] (enc_msg(mv)
                            + rest) implies false by {
                        match mv {
                            MessageV::NodeList(v2) => {
                                lemma_nodelist_msg(buf@, pos as int, mv, v2, rest);
                                crate::numeric::lemma_bytes_of_exact(v2.len(), 8);
                            },
                            _ => {
                                assert(buf@[pos as int] == enc_msg(mv)[0]);
                            },
                        }
                    }
                }
                None
            },
        }
    } else {
        proof {
            assert forall|mv: MessageV, rest: Seq<u8>|
                mv.wf() && buf@.skip(pos as int) == #[trigger] (enc_msg(mv) + rest) implies false by {
                assert(buf@[pos as int] == enc_msg(mv)[0]);
            }
        }
        None
    }
}

/// A fixed-width payload right after the tag occupies that subrange.
proof fn lemma_sub_eq(b: Seq<u8>, p0: int, payload: Seq<u8>, rest: Seq<u8>, w: int)
    requires
        0 <= p0 <= b.len(),
        payload.len() == w,
        b.skip(p0) == payload + rest,
    ensures
        b.len() >= p0 + w,
        b.subrange(p0, p0 + w) == payload,
{
    assert(b.skip(p0).len() == b.len() - p0);
    assert forall|j: int| 0 <= j < w implies #[trigger] b.subrange(p0, p0 + w)[j] == payload[j] by {
        assert(b.subrange(p0, p0 + w)[j] == b.skip(p0)[j]);
        assert((payload + rest)[j] == payload[j]);
    }
    assert(b.subrange(p0, p0 + w) =~= payload);
}

/// The counted payload of a UTXOs message.
proof fn lemma_utxos_msg(
    b: Seq<u8>,
    pos: int,
    mv: MessageV,
    v2: Seq<(TxOutV, bool)>,
    rest: Seq<u8>,
)
    requires
        0 <= pos <= b.len(),
        mv == MessageV::UTXOs(v2),
        b.skip(pos) == enc_msg(mv) + rest,
        b.len() < crate::numeric::pow256(8),
    ensures
        b.len() >= pos + 9,
        crate::numeric::nat_of(b.subrange(pos + 1, pos + 9)) == v2.len(),
        v2.len() < crate::numeric::pow256(8),
        b.skip(pos + 9) == enc_outpair_seq(v2) + rest,
        enc_msg(mv).len() == 9 + enc_outpair_seq(v2).len(),
{
    lemma_msg_tag(b, pos, mv, rest);
    assert(enc_msg(mv).skip(1) =~= enc_u64(v2.len() as u64) + enc_outpair_seq(v2));
    assert((enc_u64(v2.len() as u64) + enc_outpair_seq(v2)) + rest =~= enc_u64(v2.len() as u64) + (
    enc_outpair_seq(v2) + rest));
    crate::codec::lemma_skip_prefix(
        b,
        pos + 1,
        enc_u64(v2.len() as u64),
        enc_outpair_seq(v2) + rest,
    );
    assert(v2.len() <= b.len()) by {
        lemma_outpair_seq_min(v2);
    }
    crate::numeric::lemma_pow256_units();
    crate::numeric::lemma_bytes_of_exact(v2.len(), 8);
    lemma_sub_eq(b, pos + 1, enc_u64(v2.len() as u64), enc_outpair_seq(v2) + rest, 8);
}

/// An output-pair encoding is at least one byte.
proof fn lemma_outpair_seq_min(s: Seq<(TxOutV, bool)>)
    ensures
        enc_outpair_seq(s).len() >= s.len(),
    decreases s.len(),
{
    if s.len() > 0 {
        lemma_outpair_seq_min(s.drop_first());
        assert(enc_outpair(s.first()).len() >= 1);
    }
}

/// The counted payload of a NodeList message.
proof fn lemma_nodelist_msg(b: Seq<u8>, pos: int, mv: MessageV, v2: Seq<Seq<char>>, rest: Seq<u8>)
    requires
        0 <= pos <= b.len(),
        mv == MessageV::NodeList(v2),
        b.skip(pos) == enc_msg(mv) + rest,
        b.len() < crate::numeric::pow256(8),
    ensures
        b.len() >= pos + 9,
        crate::numeric::nat_of(b.subrange(pos + 1, pos + 9)) == v2.len(),
        v2.len() < crate::numeric::pow256(8),
        b.skip(pos + 9) == enc_str_seq(v2) + rest,
        enc_msg(mv).len() == 9 + enc_str_seq(v2).len(),
{
    lemma_msg_tag(b, pos, mv, rest);
    assert(enc_msg(mv).skip(1) =~= enc_u64(v2.len() as u64) + enc_str_seq(v2));
    assert((enc_u64(v2.len() as u64) + enc_str_seq(v2)) + rest =~= enc_u64(v2.len() as u64) + (
    enc_str_seq(v2) + rest));
    crate::codec::lemma_skip_prefix(b, pos + 1, enc_u64(v2.len() as u64), enc_str_seq(v2) + rest);
    assert(v2.len() <= b.len()) by {
        lemma_str_seq_min(v2);
    }
    crate::numeric::lemma_pow256_units();
    crate::numeric::lemma_bytes_of_exact(v2.len(), 8);
    lemma_sub_eq(b, pos + 1, enc_u64(v2.len() as u64), enc_str_seq(v2) + rest, 8);
}

/// A string encoding is at least one byte.
proof fn lemma_str_seq_min(s: Seq<Seq<char>>)
    ensures
        enc_str_seq(s).len() >= s.len(),
    decreases s.len(),
{
    if s.len() > 0 {
        lemma_str_seq_min(s.drop_first());
        assert(enc_str(s.first()).len() >= 8);
    }
}

} // verus!
