//! The block-synchronisation wire format.
//!
//! A message is one identifier byte followed by its body. Scalars travel as
//! eight big-endian bytes; a list travels as its length followed by its
//! items; a transaction travels as its four scalar fields, its payload
//! length, and the payload bytes. Decoding rejects an unknown identifier,
//! and a body whose length does not match its arity, with a typed error;
//! encoding and decoding round-trip exactly.

use vstd::prelude::*;

use crate::types::Header;
use crate::types::TxView;
use crate::types::UnverifiedTransaction;

verus! {

pub const MESSAGE_ID_STATUS: u8 = 0x01;
pub const MESSAGE_ID_REQUEST_HEADERS: u8 = 0x02;
pub const MESSAGE_ID_HEADERS: u8 = 0x03;
pub const MESSAGE_ID_REQUEST_BODIES: u8 = 0x04;
pub const MESSAGE_ID_BODIES: u8 = 0x05;

/// Why a message failed to decode.
#[derive(Clone, Copy, Debug, PartialEq, Eq, Structural)]
pub enum DecoderError {
    /// A list's length does not match its arity, or bytes are missing or
    /// left over.
    RlpIncorrectListLen,
    /// The identifier byte names no message kind.
    UnknownMessageId,
}

/// A block-synchronisation message.
#[derive(Clone, Debug, PartialEq, Eq)]
pub enum Message {
    Status { total_score: u64, best_hash: u64, genesis_hash: u64 },
    RequestHeaders { start_number: u64, max_count: u64 },
    Headers(Vec<Header>),
    RequestBodies(Vec<u64>),
    Bodies(Vec<Vec<UnverifiedTransaction>>),
}

/// Spec-level value of a [`Message`].
pub enum MessageView {
    Status { total_score: u64, best_hash: u64, genesis_hash: u64 },
    RequestHeaders { start_number: u64, max_count: u64 },
    Headers(Seq<Header>),
    RequestBodies(Seq<u64>),
    Bodies(Seq<Seq<TxView>>),
}

impl View for Message {
    type V = MessageView;

    open spec fn view(&self) -> MessageView {
        match self {
            Message::Status { total_score, best_hash, genesis_hash } => MessageView::Status {
                total_score: *total_score,
                best_hash: *best_hash,
                genesis_hash: *genesis_hash,
            },
            Message::RequestHeaders { start_number, max_count } => MessageView::RequestHeaders {
                start_number: *start_number,
                max_count: *max_count,
            },
            Message::Headers(hs) => MessageView::Headers(hs@),
            Message::RequestBodies(hs) => MessageView::RequestBodies(hs@),
            Message::Bodies(bs) => MessageView::Bodies(
                bs@.map_values(|v: Vec<UnverifiedTransaction>| v@.map_values(|t: UnverifiedTransaction| t@)),
            ),
        }
    }
}

impl Message {
    /// Whether this is the handshake status message.
    pub fn is_status(&self) -> (r: bool)
        ensures
            r == (self@ is Status),
    {
        match self {
            Message::Status { .. } => true,
            _ => false,
        }
    }
}

/// A scalar as eight big-endian bytes.
pub open spec fn enc_u64(x: u64) -> Seq<u8> {
    seq![
        ((x >> 56) & 0xff) as u8,
        ((x >> 48) & 0xff) as u8,
        ((x >> 40) & 0xff) as u8,
        ((x >> 32) & 0xff) as u8,
        ((x >> 24) & 0xff) as u8,
        ((x >> 16) & 0xff) as u8,
        ((x >> 8) & 0xff) as u8,
        (x & 0xff) as u8,
    ]
}

/// The scalar eight big-endian bytes hold.
pub open spec fn dec_u64(b: Seq<u8>) -> u64 {
    ((b[0] as u64) << 56 | (b[1] as u64) << 48 | (b[2] as u64) << 40 | (b[3] as u64) << 32 | (
    b[4] as u64) << 24 | (b[5] as u64) << 16 | (b[6] as u64) << 8 | (b[7] as u64)) as u64
}

/// A header as its three scalar fields.
pub open spec fn enc_header(h: Header) -> Seq<u8> {
    enc_u64(h.parent_hash) + enc_u64(h.number) + enc_u64(h.timestamp)
}

/// The header 24 bytes hold.
pub open spec fn dec_header(b: Seq<u8>) -> Header {
    Header {
        parent_hash: dec_u64(b.subrange(0, 8)),
        number: dec_u64(b.subrange(8, 16)),
        timestamp: dec_u64(b.subrange(16, 24)),
    }
}

/// A header list as the headers in order.
pub open spec fn enc_headers(hs: Seq<Header>) -> Seq<u8>
    decreases hs.len(),
{
    if hs.len() == 0 {
        Seq::empty()
    } else {
        enc_header(hs.first()) + enc_headers(hs.drop_first())
    }
}

/// A hash list as the hashes in order.
pub open spec fn enc_hashes(hs: Seq<u64>) -> Seq<u8>
    decreases hs.len(),
{
    if hs.len() == 0 {
        Seq::empty()
    } else {
        enc_u64(hs.first()) + enc_hashes(hs.drop_first())
    }
}

/// A transaction as its scalar fields, its payload length, and the payload.
pub open spec fn enc_tx(t: TxView) -> Seq<u8> {
    enc_u64(t.nonce) + enc_u64(t.fee) + enc_u64(t.signer) + enc_u64(t.hash) + enc_u64(
        t.payload.len() as u64,
    ) + t.payload
}

/// A transaction list as the transactions in order.
pub open spec fn enc_txs(ts: Seq<TxView>) -> Seq<u8>
    decreases ts.len(),
{
    if ts.len() == 0 {
        Seq::empty()
    } else {
        enc_tx(ts.first()) + enc_txs(ts.drop_first())
    }
}

/// A block-body list: each body as its transaction count and transactions.
pub open spec fn enc_bodies(bs: Seq<Seq<TxView>>) -> Seq<u8>
    decreases bs.len(),
{
    if bs.len() == 0 {
        Seq::empty()
    } else {
        enc_u64(bs.first().len() as u64) + enc_txs(bs.first()) + enc_bodies(bs.drop_first())
    }
}

/// The byte encoding of a message: its identifier, then its body.
pub open spec fn enc_message(m: MessageView) -> Seq<u8> {
    match m {
        MessageView::Status { total_score, best_hash, genesis_hash } => seq![MESSAGE_ID_STATUS]
            + enc_u64(total_score) + enc_u64(best_hash) + enc_u64(genesis_hash),
        MessageView::RequestHeaders { start_number, max_count } => seq![
            MESSAGE_ID_REQUEST_HEADERS,
        ] + enc_u64(start_number) + enc_u64(max_count),
        MessageView::Headers(hs) => seq![MESSAGE_ID_HEADERS] + enc_u64(hs.len() as u64)
            + enc_headers(hs),
        MessageView::RequestBodies(hs) => seq![MESSAGE_ID_REQUEST_BODIES] + enc_u64(
            hs.len() as u64,
        ) + enc_hashes(hs),
        MessageView::Bodies(bs) => seq![MESSAGE_ID_BODIES] + enc_u64(bs.len() as u64) + enc_bodies(
            bs,
        ),
    }
}

/// Parse `n` transactions from the front of `b`; what follows them is
/// returned unread. `None` when the bytes run out.
pub open spec fn dec_txs(b: Seq<u8>, n: int) -> Option<(Seq<TxView>, Seq<u8>)>
    decreases n,
{
    if n <= 0 {
        Some((Seq::empty(), b))
    } else if b.len() < 40 {
        None
    } else {
        let pl = dec_u64(b.subrange(32, 40)) as int;
        if b.len() < 40 + pl {
            None
        } else {
            let t = TxView {
                nonce: dec_u64(b.subrange(0, 8)),
                fee: dec_u64(b.subrange(8, 16)),
                signer: dec_u64(b.subrange(16, 24)),
                hash: dec_u64(b.subrange(24, 32)),
                payload: b.subrange(40, 40 + pl),
            };
            match dec_txs(b.skip(40 + pl), n - 1) {
                None => None,
                Some((ts, rest)) => Some((seq![t] + ts, rest)),
            }
        }
    }
}

/// Parse `n` block bodies from the front of `b`.
pub open spec fn dec_bodies(b: Seq<u8>, n: int) -> Option<(Seq<Seq<TxView>>, Seq<u8>)>
    decreases n,
{
    if n <= 0 {
        Some((Seq::empty(), b))
    } else if b.len() < 8 {
        None
    } else {
        let c = dec_u64(b.take(8)) as int;
        match dec_txs(b.skip(8), c) {
            None => None,
            Some((ts, rest)) => match dec_bodies(rest, n - 1) {
                None => None,
                Some((bs, rest2)) => Some((seq![ts] + bs, rest2)),
            },
        }
    }
}

/// The message a byte string holds, or why it holds none: an unknown
/// identifier, a body whose length does not match its arity, or bytes
/// missing or left over.
pub open spec fn dec_message(b: Seq<u8>) -> Result<MessageView, DecoderError> {
    if b.len() < 1 {
        Err(DecoderError::RlpIncorrectListLen)
    } else {
        let body = b.skip(1);
        if b[0] == MESSAGE_ID_STATUS {
            if body.len() == 24 {
                Ok(
                    MessageView::Status {
                        total_score: dec_u64(body.subrange(0, 8)),
                        best_hash: dec_u64(body.subrange(8, 16)),
                        genesis_hash: dec_u64(body.subrange(16, 24)),
                    },
                )
            } else {
                Err(DecoderError::RlpIncorrectListLen)
            }
        } else if b[0] == MESSAGE_ID_REQUEST_HEADERS {
            if body.len() == 16 {
                Ok(
                    MessageView::RequestHeaders {
                        start_number: dec_u64(body.subrange(0, 8)),
                        max_count: dec_u64(body.subrange(8, 16)),
                    },
                )
            } else {
                Err(DecoderError::RlpIncorrectListLen)
            }
        } else if b[0] == MESSAGE_ID_HEADERS {
            if body.len() < 8 {
                Err(DecoderError::RlpIncorrectListLen)
            } else {
                let n = dec_u64(body.take(8)) as int;
                let rest = body.skip(8);
                if rest.len() == n * 24 {
                    Ok(
                        MessageView::Headers(
                            Seq::new(n as nat, |i: int| dec_header(rest.subrange(24 * i, 24 * i + 24))),
                        ),
                    )
                } else {
                    Err(DecoderError::RlpIncorrectListLen)
                }
            }
        } else if b[0] == MESSAGE_ID_REQUEST_BODIES {
            if body.len() < 8 {
                Err(DecoderError::RlpIncorrectListLen)
            } else {
                let n = dec_u64(body.take(8)) as int;
                let rest = body.skip(8);
                if rest.len() == n * 8 {
                    Ok(
                        MessageView::RequestBodies(
                            Seq::new(n as nat, |i: int| dec_u64(rest.subrange(8 * i, 8 * i + 8))),
                        ),
                    )
                } else {
                    Err(DecoderError::RlpIncorrectListLen)
                }
            }
        } else if b[0] == MESSAGE_ID_BODIES {
            if body.len() < 8 {
                Err(DecoderError::RlpIncorrectListLen)
            } else {
                let n = dec_u64(body.take(8)) as int;
                match dec_bodies(body.skip(8), n) {
                    Some((bs, rest)) => if rest.len() == 0 {
                        Ok(MessageView::Bodies(bs))
                    } else {
                        Err(DecoderError::RlpIncorrectListLen)
                    },
                    None => Err(DecoderError::RlpIncorrectListLen),
                }
            }
        } else {
            Err(DecoderError::UnknownMessageId)
        }
    }
}

/// The spec-level value of a decode result.
pub open spec fn decode_view(r: Result<Message, DecoderError>) -> Result<
    MessageView,
    DecoderError,
> {
    match r {
        Ok(m) => Ok(m@),
        Err(e) => Err(e),
    }
}

/// Append a scalar as eight big-endian bytes.
fn write_u64(out: &mut Vec<u8>, x: u64)
    ensures
        final(out)@ == old(out)@ + enc_u64(x),
{
    out.push(((x >> 56) & 0xff) as u8);
    out.push(((x >> 48) & 0xff) as u8);
    out.push(((x >> 40) & 0xff) as u8);
    out.push(((x >> 32) & 0xff) as u8);
    out.push(((x >> 24) & 0xff) as u8);
    out.push(((x >> 16) & 0xff) as u8);
    out.push(((x >> 8) & 0xff) as u8);
    out.push((x & 0xff) as u8);
    proof {
        assert(out@ =~= old(out)@ + enc_u64(x));
    }
}

/// Read the scalar at `pos`.
fn read_u64(buf: &Vec<u8>, pos: usize) -> (x: u64)
    requires
        pos + 8 <= buf@.len(),
    ensures
        x == dec_u64(buf@.subrange(pos as int, pos as int + 8)),
{
    let n = buf.len();
    let x = (buf[pos] as u64) << 56 | (buf[pos + 1] as u64) << 48 | (buf[pos + 2] as u64) << 40 | (
    buf[pos + 3] as u64) << 32 | (buf[pos + 4] as u64) << 24 | (buf[pos + 5] as u64) << 16 | (
    buf[pos + 6] as u64) << 8 | (buf[pos + 7] as u64);
    proof {
        let s = buf@.subrange(pos as int, pos as int + 8);
        assert(s[0] == buf@[pos as int] && s[1] == buf@[pos as int + 1] && s[2] == buf@[pos as int
            + 2] && s[3] == buf@[pos as int + 3] && s[4] == buf@[pos as int + 4] && s[5]
            == buf@[pos as int + 5] && s[6] == buf@[pos as int + 6] && s[7] == buf@[pos as int
            + 7]);
    }
    x
}

/// Append a header's 24 bytes.
fn write_header(out: &mut Vec<u8>, h: &Header)
    ensures
        final(out)@ == old(out)@ + enc_header(*h),
{
    write_u64(out, h.parent_hash);
    write_u64(out, h.number);
    write_u64(out, h.timestamp);
    proof {
        assert(out@ =~= old(out)@ + enc_header(*h));
    }
}

/// Append a transaction's bytes.
fn write_tx(out: &mut Vec<u8>, t: &UnverifiedTransaction)
    ensures
        final(out)@ == old(out)@ + enc_tx(t@),
{
    write_u64(out, t.nonce);
    write_u64(out, t.fee);
    write_u64(out, t.signer);
    write_u64(out, t.hash);
    write_u64(out, t.payload.len() as u64);
    let mut k: usize = 0;
    let ghost mid = out@;
    while k < t.payload.len()
        invariant
            k <= t.payload@.len(),
            out@ == mid + t.payload@.take(k as int),
        decreases t.payload@.len() - k,
    {
        proof {
            assert(t.payload@.take(k as int + 1).drop_last() =~= t.payload@.take(k as int));
        }
        out.push(t.payload[k]);
        k += 1;
    }
    proof {
        assert(t.payload@.take(t.payload@.len() as int) =~= t.payload@);
        assert(out@ =~= old(out)@ + enc_tx(t@));
    }
}

impl Message {
    /// The message's byte encoding.
    pub fn encode(&self) -> (r: Vec<u8>)
        ensures
            r@ == enc_message(self@),
    {
        let mut out: Vec<u8> = Vec::new();
        match self {
            Message::Status { total_score, best_hash, genesis_hash } => {
                out.push(MESSAGE_ID_STATUS);
                write_u64(&mut out, *total_score);
                write_u64(&mut out, *best_hash);
                write_u64(&mut out, *genesis_hash);
                proof {
                    assert(out@ =~= enc_message(self@));
                }
            },
            Message::RequestHeaders { start_number, max_count } => {
                out.push(MESSAGE_ID_REQUEST_HEADERS);
                write_u64(&mut out, *start_number);
                write_u64(&mut out, *max_count);
                proof {
                    assert(out@ =~= enc_message(self@));
                }
            },
            Message::Headers(headers) => {
                out.push(MESSAGE_ID_HEADERS);
                write_u64(&mut out, headers.len() as u64);
                let ghost base = out@;
                let mut i: usize = 0;
                proof {
                    assert(headers@.skip(0) =~= headers@);
                }
                while i < headers.len()
                    invariant
                        i <= headers@.len(),
                        out@ + enc_headers(headers@.skip(i as int)) == base + enc_headers(
                            headers@,
                        ),
                    decreases headers@.len() - i,
                {
                    proof {
                        let suf = headers@.skip(i as int);
                        assert(suf.first() == headers@[i as int]);
                        assert(suf.drop_first() =~= headers@.skip(i as int + 1));
                    }
                    write_header(&mut out, &headers[i]);
                    proof {
                        assert(out@ + enc_headers(headers@.skip(i as int + 1)) =~= base
                            + enc_headers(headers@));
                    }
                    i += 1;
                }
                proof {
                    assert(headers@.skip(headers@.len() as int) =~= Seq::<Header>::empty());
                    assert(out@ =~= enc_message(self@));
                }
            },
            Message::RequestBodies(hashes) => {
                out.push(MESSAGE_ID_REQUEST_BODIES);
                write_u64(&mut out, hashes.len() as u64);
                let ghost base = out@;
                let mut i: usize = 0;
                proof {
                    assert(hashes@.skip(0) =~= hashes@);
                }
                while i < hashes.len()
                    invariant
                        i <= hashes@.len(),
                        out@ + enc_hashes(hashes@.skip(i as int)) == base + enc_hashes(hashes@),
                    decreases hashes@.len() - i,
                {
                    proof {
                        let suf = hashes@.skip(i as int);
                        assert(suf.first() == hashes@[i as int]);
                        assert(suf.drop_first() =~= hashes@.skip(i as int + 1));
                    }
                    write_u64(&mut out, hashes[i]);
                    proof {
                        assert(out@ + enc_hashes(hashes@.skip(i as int + 1)) =~= base + enc_hashes(
                            hashes@,
                        ));
                    }
                    i += 1;
                }
                proof {
                    assert(hashes@.skip(hashes@.len() as int) =~= Seq::<u64>::empty());
                    assert(out@ =~= enc_message(self@));
                }
            },
            Message::Bodies(bodies) => {
                out.push(MESSAGE_ID_BODIES);
                write_u64(&mut out, bodies.len() as u64);
                let ghost bv = bodies@.map_values(
                    |v: Vec<UnverifiedTransaction>| v@.map_values(|t: UnverifiedTransaction| t@),
                );
                let ghost base = out@;
                let mut j: usize = 0;
                proof {
                    assert(bv.skip(0) =~= bv);
                }
                while j < bodies.len()
                    invariant
                        j <= bodies@.len(),
                        bv == bodies@.map_values(
                            |v: Vec<UnverifiedTransaction>| v@.map_values(
                                |t: UnverifiedTransaction| t@,
                            ),
                        ),
                        out@ + enc_bodies(bv.skip(j as int)) == base + enc_bodies(bv),
                    decreases bodies@.len() - j,
                {
                    let body = &bodies[j];
                    let ghost tv = body@.map_values(|t: UnverifiedTransaction| t@);
                    proof {
                        let suf = bv.skip(j as int);
                        assert(suf.first() == bv[j as int]);
                        assert(bv[j as int] == tv);
                        assert(suf.drop_first() =~= bv.skip(j as int + 1));
                    }
                    write_u64(&mut out, body.len() as u64);
                    let ghost base2 = out@;
                    let mut k: usize = 0;
                    proof {
                        assert(tv.skip(0) =~= tv);
                        assert(tv.len() == body@.len());
                    }
                    while k < body.len()
                        invariant
                            k <= body@.len(),
                            tv == body@.map_values(|t: UnverifiedTransaction| t@),
                            out@ + enc_txs(tv.skip(k as int)) == base2 + enc_txs(tv),
                        decreases body@.len() - k,
                    {
                        proof {
                            let suf = tv.skip(k as int);
                            assert(suf.first() == tv[k as int]);
                            assert(tv[k as int] == body@[k as int]@);
                            assert(suf.drop_first() =~= tv.skip(k as int + 1));
                        }
                        write_tx(&mut out, &body[k]);
                        proof {
                            assert(out@ + enc_txs(tv.skip(k as int + 1)) =~= base2 + enc_txs(tv));
                        }
                        k += 1;
                    }
                    proof {
                        assert(tv.skip(tv.len() as int) =~= Seq::<TxView>::empty());
                        assert(out@ =~= base2 + enc_txs(tv));
                        assert(out@ + enc_bodies(bv.skip(j as int + 1)) =~= base + enc_bodies(bv));
                    }
                    j += 1;
                }
                proof {
                    assert(bv.skip(bv.len() as int) =~= Seq::<Seq<TxView>>::empty());
                    assert(out@ =~= enc_message(self@));
                }
            },
        }
        out
    }
}

/// Parse `n` transactions starting at `pos`, returning them with the
/// position of the first unread byte.
#[verifier::rlimit(100)]
fn decode_txs(buf: &Vec<u8>, pos: usize, n: u64) -> (r: Result<
    (Vec<UnverifiedTransaction>, usize),
    DecoderError,
>)
    requires
        pos <= buf@.len(),
    ensures
        r matches Ok((txs, newpos)) ==> pos <= newpos <= buf@.len() && dec_txs(
            buf@.skip(pos as int),
            n as int,
        ) == Some::<(Seq<TxView>, Seq<u8>)>(
            (txs@.map_values(|t: UnverifiedTransaction| t@), buf@.skip(newpos as int)),
        ),
        r is Err ==> dec_txs(buf@.skip(pos as int), n as int) is None && r == Err::<
            (Vec<UnverifiedTransaction>, usize),
            DecoderError,
        >(DecoderError::RlpIncorrectListLen),
{
    let len = buf.len();
    let mut p = pos;
    let mut acc: Vec<UnverifiedTransaction> = Vec::new();
    let mut i: u64 = 0;
    proof {
        assert(acc@.map_values(|t: UnverifiedTransaction| t@) =~= Seq::<TxView>::empty());
    }
    while i < n
        invariant
            i <= n,
            pos <= p <= buf@.len(),
            len == buf@.len(),
            ({
                let accv = acc@.map_values(|t: UnverifiedTransaction| t@);
                match dec_txs(buf@.skip(p as int), (n - i) as int) {
                    Some((ts, rest)) => dec_txs(buf@.skip(pos as int), n as int) == Some::<
                        (Seq<TxView>, Seq<u8>),
                    >((accv + ts, rest)),
                    None => dec_txs(buf@.skip(pos as int), n as int) is None,
                }
            }),
        decreases n - i,
    {
        let ghost b = buf@.skip(p as int);
        let ghost accv = acc@.map_values(|t: UnverifiedTransaction| t@);
        if len - p < 40 {
            proof {
                assert(b.len() < 40);
                assert(dec_txs(b, (n - i) as int) is None);
                assert(dec_txs(buf@.skip(pos as int), n as int) is None);
            }
            return Err(DecoderError::RlpIncorrectListLen);
        }
        let nonce = read_u64(buf, p);
        let fee = read_u64(buf, p + 8);
        let signer = read_u64(buf, p + 16);
        let hash = read_u64(buf, p + 24);
        let pl64 = read_u64(buf, p + 32);
        proof {
            assert(b.subrange(0, 8) =~= buf@.subrange(p as int, p as int + 8));
            assert(b.subrange(8, 16) =~= buf@.subrange(p as int + 8, p as int + 16));
            assert(b.subrange(16, 24) =~= buf@.subrange(p as int + 16, p as int + 24));
            assert(b.subrange(24, 32) =~= buf@.subrange(p as int + 24, p as int + 32));
            assert(b.subrange(32, 40) =~= buf@.subrange(p as int + 32, p as int + 40));
        }
        if pl64 > (len - p - 40) as u64 {
            proof {
                assert(b.len() < 40 + pl64);
                assert(dec_txs(b, (n - i) as int) is None);
                assert(dec_txs(buf@.skip(pos as int), n as int) is None);
            }
            return Err(DecoderError::RlpIncorrectListLen);
        }
        let pl = pl64 as usize;
        let mut payload: Vec<u8> = Vec::new();
        let mut k: usize = 0;
        proof {
            assert(payload@ =~= buf@.subrange(p as int + 40, p as int + 40));
        }
        while k < pl
            invariant
                k <= pl,
                len == buf@.len(),
                p + 40 + pl <= buf@.len(),
                payload@ == buf@.subrange(p as int + 40, p as int + 40 + k as int),
            decreases pl - k,
        {
            proof {
                assert(buf@.subrange(p as int + 40, p as int + 40 + k as int + 1).drop_last()
                    =~= buf@.subrange(p as int + 40, p as int + 40 + k as int));
            }
            payload.push(buf[p + 40 + k]);
            k += 1;
        }
        let tx = UnverifiedTransaction { nonce, fee, signer, hash, payload };
        proof {
            assert(tx@.payload =~= b.subrange(40, 40 + pl as int));
        }
        acc.push(tx);
        let newpos = p + 40 + pl;
        proof {
            let accv2 = acc@.map_values(|t: UnverifiedTransaction| t@);
            assert(accv2 =~= accv.push(tx@));
            assert(b.skip(40 + pl as int) =~= buf@.skip(newpos as int));
            let stepped = dec_txs(buf@.skip(newpos as int), (n - i - 1) as int);
            match stepped {
                Some((ts, rest)) => {
                    assert(dec_txs(b, (n - i) as int) == Some::<(Seq<TxView>, Seq<u8>)>(
                        (seq![tx@] + ts, rest),
                    ));
                    assert(accv + (seq![tx@] + ts) =~= accv2 + ts);
                },
                None => {
                    assert(dec_txs(b, (n - i) as int) is None);
                },
            }
        }
        p = newpos;
        i += 1;
    }
    proof {
        let accv = acc@.map_values(|t: UnverifiedTransaction| t@);
        assert(dec_txs(buf@.skip(p as int), 0) == Some::<(Seq<TxView>, Seq<u8>)>(
            (Seq::empty(), buf@.skip(p as int)),
        ));
        assert(accv + Seq::<TxView>::empty() =~= accv);
    }
    Ok((acc, p))
}

impl Message {
    /// The message a byte string holds, or why it holds none.
    #[verifier::rlimit(100)]
    pub fn decode(buf: &Vec<u8>) -> (r: Result<Message, DecoderError>)
        ensures
            decode_view(r) == dec_message(buf@),
    {
        let len = buf.len();
        if len < 1 {
            return Err(DecoderError::RlpIncorrectListLen);
        }
        let ghost body = buf@.skip(1);
        let id = buf[0];
        if id == MESSAGE_ID_STATUS {
            if len != 25 {
                return Err(DecoderError::RlpIncorrectListLen);
            }
            let total_score = read_u64(buf, 1);
            let best_hash = read_u64(buf, 9);
            let genesis_hash = read_u64(buf, 17);
            proof {
                assert(body.subrange(0, 8) =~= buf@.subrange(1, 9));
                assert(body.subrange(8, 16) =~= buf@.subrange(9, 17));
                assert(body.subrange(16, 24) =~= buf@.subrange(17, 25));
            }
            Ok(Message::Status { total_score, best_hash, genesis_hash })
        } else if id == MESSAGE_ID_REQUEST_HEADERS {
            if len != 17 {
                return Err(DecoderError::RlpIncorrectListLen);
            }
            let start_number = read_u64(buf, 1);
            let max_count = read_u64(buf, 9);
            proof {
                assert(body.subrange(0, 8) =~= buf@.subrange(1, 9));
                assert(body.subrange(8, 16) =~= buf@.subrange(9, 17));
            }
            Ok(Message::RequestHeaders { start_number, max_count })
        } else if id == MESSAGE_ID_HEADERS {
            if len < 9 {
                return Err(DecoderError::RlpIncorrectListLen);
            }
            let n = read_u64(buf, 1);
            let ghost rest = body.skip(8);
            proof {
                assert(body.subrange(0, 8) =~= buf@.subrange(1, 9));
                assert(body.take(8) =~= buf@.subrange(1, 9));
            }
            let remaining = len - 9;
            if remaining % 24 != 0 || (remaining / 24) as u64 != n {
                proof {
                    assert(rest.len() == remaining);
                    if rest.len() == (n as int) * 24 {
                        assert((n as int) * 24 % 24 == 0 && (n as int) * 24 / 24 == n as int)
                            by (nonlinear_arith);
                    }
                }
                return Err(DecoderError::RlpIncorrectListLen);
            }
            let count = remaining / 24;
            proof {
                assert(remaining == 24 * (remaining / 24) + remaining % 24);
                assert(rest.len() == (n as int) * 24) by (nonlinear_arith)
                    requires
                        rest.len() == remaining,
                        remaining % 24 == 0,
                        remaining / 24 == n as int,
                ;
            }
            let mut hs: Vec<Header> = Vec::new();
            let mut i: usize = 0;
            while i < count
                invariant
                    i <= count,
                    len == buf@.len(),
                    len - 9 == 24 * count,
                    rest == buf@.skip(9),
                    hs@.len() == i,
                    forall|j: int|
                        0 <= j < i ==> hs@[j] == dec_header(
                            #[trigger] rest.subrange(24 * j, 24 * j + 24),
                        ),
                decreases count - i,
            {
                proof {
                    assert(24 * (i as int) + 24 <= 24 * (count as int)) by (nonlinear_arith)
                        requires
                            i < count,
                    ;
                    assert(rest.subrange(24 * (i as int), 24 * (i as int) + 24).subrange(0, 8)
                        =~= buf@.subrange(9 + 24 * (i as int), 9 + 24 * (i as int) + 8));
                    assert(rest.subrange(24 * (i as int), 24 * (i as int) + 24).subrange(8, 16)
                        =~= buf@.subrange(9 + 24 * (i as int) + 8, 9 + 24 * (i as int) + 16));
                    assert(rest.subrange(24 * (i as int), 24 * (i as int) + 24).subrange(16, 24)
                        =~= buf@.subrange(9 + 24 * (i as int) + 16, 9 + 24 * (i as int) + 24));
                }
                let base = 9 + 24 * i;
                let h = Header {
                    parent_hash: read_u64(buf, base),
                    number: read_u64(buf, base + 8),
                    timestamp: read_u64(buf, base + 16),
                };
                hs.push(h);
                i += 1;
            }
            proof {
                assert(hs@ =~= Seq::new(n as nat, |i: int| dec_header(rest.subrange(
                    24 * i,
                    24 * i + 24,
                ))));
            }
            Ok(Message::Headers(hs))
        } else if id == MESSAGE_ID_REQUEST_BODIES {
            if len < 9 {
                return Err(DecoderError::RlpIncorrectListLen);
            }
            let n = read_u64(buf, 1);
            let ghost rest = body.skip(8);
            proof {
                assert(body.take(8) =~= buf@.subrange(1, 9));
            }
            let remaining = len - 9;
            if remaining % 8 != 0 || (remaining / 8) as u64 != n {
                proof {
                    assert(rest.len() == remaining);
                    if rest.len() == (n as int) * 8 {
                        assert((n as int) * 8 % 8 == 0 && (n as int) * 8 / 8 == n as int)
                            by (nonlinear_arith);
                    }
                }
                return Err(DecoderError::RlpIncorrectListLen);
            }
            let count = remaining / 8;
            proof {
                assert(remaining == 8 * (remaining / 8) + remaining % 8);
                assert(rest.len() == (n as int) * 8) by (nonlinear_arith)
                    requires
                        rest.len() == remaining,
                        remaining % 8 == 0,
                        remaining / 8 == n as int,
                ;
            }
            let mut hs: Vec<u64> = Vec::new();
            let mut i: usize = 0;
            while i < count
                invariant
                    i <= count,
                    len == buf@.len(),
                    len - 9 == 8 * count,
                    rest == buf@.skip(9),
                    hs@.len() == i,
                    forall|j: int|
                        0 <= j < i ==> hs@[j] == dec_u64(
                            #[trigger] rest.subrange(8 * j, 8 * j + 8),
                        ),
                decreases count - i,
            {
                proof {
                    assert(8 * (i as int) + 8 <= 8 * (count as int)) by (nonlinear_arith)
                        requires
                            i < count,
                    ;
                    assert(rest.subrange(8 * (i as int), 8 * (i as int) + 8) =~= buf@.subrange(
                        9 + 8 * (i as int),
                        9 + 8 * (i as int) + 8,
                    ));
                }
                let h = read_u64(buf, 9 + 8 * i);
                hs.push(h);
                i += 1;
            }
            proof {
                assert(hs@ =~= Seq::new(n as nat, |i: int| dec_u64(rest.subrange(
                    8 * i,
                    8 * i + 8,
                ))));
            }
            Ok(Message::RequestBodies(hs))
        } else if id == MESSAGE_ID_BODIES {
            if len < 9 {
                return Err(DecoderError::RlpIncorrectListLen);
            }
            let n = read_u64(buf, 1);
            proof {
                assert(body.take(8) =~= buf@.subrange(1, 9));
                assert(body.skip(8) =~= buf@.skip(9));
            }
            let mut bodies: Vec<Vec<UnverifiedTransaction>> = Vec::new();
            let mut pos: usize = 9;
            let mut j: u64 = 0;
            proof {
                assert(bodies@.map_values(
                    |v: Vec<UnverifiedTransaction>| v@.map_values(|t: UnverifiedTransaction| t@),
                ) =~= Seq::<Seq<TxView>>::empty());
            }
            while j < n
                invariant
                    j <= n,
                    9 <= pos <= buf@.len(),
                    len == buf@.len(),
                    body == buf@.skip(1),
                    buf@.len() >= 9,
                    buf@[0] == MESSAGE_ID_BODIES,
                    n == dec_u64(body.take(8)),
                    ({
                        let bv = bodies@.map_values(
                            |v: Vec<UnverifiedTransaction>| v@.map_values(
                                |t: UnverifiedTransaction| t@,
                            ),
                        );
                        match dec_bodies(buf@.skip(pos as int), (n - j) as int) {
                            Some((bs, rest)) => dec_bodies(buf@.skip(9), n as int) == Some::<
                                (Seq<Seq<TxView>>, Seq<u8>),
                            >((bv + bs, rest)),
                            None => dec_bodies(buf@.skip(9), n as int) is None,
                        }
                    }),
                decreases n - j,
            {
                let ghost b = buf@.skip(pos as int);
                let ghost bv = bodies@.map_values(
                    |v: Vec<UnverifiedTransaction>| v@.map_values(|t: UnverifiedTransaction| t@),
                );
                if len - pos < 8 {
                    proof {
                        assert(b.len() < 8);
                        assert(dec_bodies(b, (n - j) as int) is None);
                        assert(dec_bodies(buf@.skip(9), n as int) is None);
                        assert(body.skip(8) =~= buf@.skip(9));
                    }
                    return Err(DecoderError::RlpIncorrectListLen);
                }
                let c = read_u64(buf, pos);
                proof {
                    assert(b.take(8) =~= buf@.subrange(pos as int, pos as int + 8));
                    assert(b.skip(8) =~= buf@.skip(pos as int + 8));
                }
                match decode_txs(buf, pos + 8, c) {
                    Err(e) => {
                        proof {
                            assert(dec_txs(b.skip(8), c as int) is None);
                            assert(dec_bodies(b, (n - j) as int) is None);
                            assert(dec_bodies(buf@.skip(9), n as int) is None);
                            assert(body.skip(8) =~= buf@.skip(9));
                        }
                        return Err(DecoderError::RlpIncorrectListLen);
                    },
                    Ok((txs, newpos)) => {
                        let ghost tv = txs@.map_values(|t: UnverifiedTransaction| t@);
                        bodies.push(txs);
                        proof {
                            let bv2 = bodies@.map_values(
                                |v: Vec<UnverifiedTransaction>| v@.map_values(
                                    |t: UnverifiedTransaction| t@,
                                ),
                            );
                            assert(bv2 =~= bv.push(tv));
                            let stepped = dec_bodies(buf@.skip(newpos as int), (n - j - 1) as int);
                            match stepped {
                                Some((bs, rest)) => {
                                    assert(dec_bodies(b, (n - j) as int) == Some::<
                                        (Seq<Seq<TxView>>, Seq<u8>),
                                    >((seq![tv] + bs, rest)));
                                    assert(bv + (seq![tv] + bs) =~= bv2 + bs);
                                },
                                None => {
                                    assert(dec_bodies(b, (n - j) as int) is None);
                                },
                            }
                        }
                        pos = newpos;
                    },
                }
                j += 1;
            }
            proof {
                let bv = bodies@.map_values(
                    |v: Vec<UnverifiedTransaction>| v@.map_values(|t: UnverifiedTransaction| t@),
                );
                assert(dec_bodies(buf@.skip(pos as int), 0) == Some::<(Seq<Seq<TxView>>, Seq<u8>)>(
                    (Seq::empty(), buf@.skip(pos as int)),
                ));
                assert(bv + Seq::<Seq<TxView>>::empty() =~= bv);
            }
            if pos != len {
                proof {
                    assert(buf@.skip(pos as int).len() != 0);
                }
                return Err(DecoderError::RlpIncorrectListLen);
            }
            proof {
                assert(buf@.skip(pos as int).len() == 0);
            }
            Ok(Message::Bodies(bodies))
        } else {
            Err(DecoderError::UnknownMessageId)
        }
    }
}

/// Counts and payload lengths representable on the wire.
pub open spec fn msg_wf(m: MessageView) -> bool {
    match m {
        MessageView::Status { .. } => true,
        MessageView::RequestHeaders { .. } => true,
        MessageView::Headers(hs) => hs.len() <= u64::MAX,
        MessageView::RequestBodies(hs) => hs.len() <= u64::MAX,
        MessageView::Bodies(bs) => bs.len() <= u64::MAX && (forall|i: int|
            0 <= i < bs.len() ==> (#[trigger] bs[i]).len() <= u64::MAX) && (forall|i: int, j: int|
            0 <= i < bs.len() && 0 <= j < bs[i].len() ==> (#[trigger] bs[i][j]).payload.len()
                <= u64::MAX),
    }
}

/// Eight big-endian bytes decode back to the scalar they encode.
proof fn lemma_u64_round(x: u64)
    ensures
        dec_u64(enc_u64(x)) == x,
{
    let e = enc_u64(x);
    assert(e[0] == ((x >> 56) & 0xff) as u8 && e[1] == ((x >> 48) & 0xff) as u8 && e[2] == ((x
        >> 40) & 0xff) as u8 && e[3] == ((x >> 32) & 0xff) as u8 && e[4] == ((x >> 24)
        & 0xff) as u8 && e[5] == ((x >> 16) & 0xff) as u8 && e[6] == ((x >> 8) & 0xff) as u8
        && e[7] == (x & 0xff) as u8);
    assert(((((x >> 56) & 0xff) as u8 as u64) << 56 | (((x >> 48) & 0xff) as u8 as u64) << 48 | (((
    x >> 40) & 0xff) as u8 as u64) << 40 | (((x >> 32) & 0xff) as u8 as u64) << 32 | (((x >> 24)
        & 0xff) as u8 as u64) << 24 | (((x >> 16) & 0xff) as u8 as u64) << 16 | (((x >> 8)
        & 0xff) as u8 as u64) << 8 | ((x & 0xff) as u8 as u64)) == x) by (bit_vector);
}

/// A header's 24 bytes decode back to the header.
proof fn lemma_header_round(h: Header)
    ensures
        dec_header(enc_header(h)) == h,
{
    let e = enc_header(h);
    assert(e.subrange(0, 8) =~= enc_u64(h.parent_hash));
    assert(e.subrange(8, 16) =~= enc_u64(h.number));
    assert(e.subrange(16, 24) =~= enc_u64(h.timestamp));
    lemma_u64_round(h.parent_hash);
    lemma_u64_round(h.number);
    lemma_u64_round(h.timestamp);
}

/// An encoded header list is 24 bytes per header, each header in place.
proof fn lemma_enc_headers_at(hs: Seq<Header>)
    ensures
        enc_headers(hs).len() == 24 * hs.len(),
        forall|i: int|
            0 <= i < hs.len() ==> #[trigger] enc_headers(hs).subrange(24 * i, 24 * i + 24)
                =~= enc_header(hs[i]),
    decreases hs.len(),
{
    if hs.len() == 0 {
    } else {
        let t = hs.drop_first();
        lemma_enc_headers_at(t);
        let e = enc_headers(hs);
        assert(e == enc_header(hs.first()) + enc_headers(t));
        assert forall|i: int| 0 <= i < hs.len() implies #[trigger] e.subrange(24 * i, 24 * i + 24)
            =~= enc_header(hs[i]) by {
            if i == 0 {
                assert(e.subrange(0, 24) =~= enc_header(hs[0]));
            } else {
                assert(enc_headers(t).subrange(24 * (i - 1), 24 * (i - 1) + 24) =~= enc_header(
                    t[i - 1],
                ));
                assert(e.subrange(24 * i, 24 * i + 24) =~= enc_headers(t).subrange(
                    24 * (i - 1),
                    24 * (i - 1) + 24,
                ));
                assert(t[i - 1] == hs[i]);
            }
        }
    }
}

/// An encoded hash list is 8 bytes per hash, each hash in place.
proof fn lemma_enc_hashes_at(hs: Seq<u64>)
    ensures
        enc_hashes(hs).len() == 8 * hs.len(),
        forall|i: int|
            0 <= i < hs.len() ==> #[trigger] enc_hashes(hs).subrange(8 * i, 8 * i + 8) =~= enc_u64(
                hs[i],
            ),
    decreases hs.len(),
{
    if hs.len() == 0 {
    } else {
        let t = hs.drop_first();
        lemma_enc_hashes_at(t);
        let e = enc_hashes(hs);
        assert(e == enc_u64(hs.first()) + enc_hashes(t));
        assert forall|i: int| 0 <= i < hs.len() implies #[trigger] e.subrange(8 * i, 8 * i + 8)
            =~= enc_u64(hs[i]) by {
            if i == 0 {
                assert(e.subrange(0, 8) =~= enc_u64(hs[0]));
            } else {
                assert(enc_hashes(t).subrange(8 * (i - 1), 8 * (i - 1) + 8) =~= enc_u64(t[i - 1]));
                assert(e.subrange(8 * i, 8 * i + 8) =~= enc_hashes(t).subrange(
                    8 * (i - 1),
                    8 * (i - 1) + 8,
                ));
                assert(t[i - 1] == hs[i]);
            }
        }
    }
}

/// Encoded transactions followed by anything parse back to the transactions,
/// leaving that remainder unread.
#[verifier::rlimit(100)]
proof fn lemma_txs_round(ts: Seq<TxView>, rest: Seq<u8>)
    requires
        forall|j: int| 0 <= j < ts.len() ==> (#[trigger] ts[j]).payload.len() <= u64::MAX,
    ensures
        dec_txs(enc_txs(ts) + rest, ts.len() as int) == Some::<(Seq<TxView>, Seq<u8>)>((ts, rest)),
    decreases ts.len(),
{
    if ts.len() == 0 {
        assert(enc_txs(ts) + rest =~= rest);
        assert(dec_txs(rest, 0) == Some::<(Seq<TxView>, Seq<u8>)>((Seq::empty(), rest)));
        assert(Seq::<TxView>::empty() =~= ts);
    } else {
        let t0 = ts.first();
        let tl = ts.drop_first();
        let pl = t0.payload.len() as int;
        let b = enc_txs(ts) + rest;
        assert(enc_txs(ts) == enc_tx(t0) + enc_txs(tl));
        assert(enc_tx(t0).len() == 40 + pl);
        assert(b.len() >= 40 + pl);
        assert(b.subrange(0, 8) =~= enc_u64(t0.nonce));
        assert(b.subrange(8, 16) =~= enc_u64(t0.fee));
        assert(b.subrange(16, 24) =~= enc_u64(t0.signer));
        assert(b.subrange(24, 32) =~= enc_u64(t0.hash));
        assert(b.subrange(32, 40) =~= enc_u64(t0.payload.len() as u64));
        lemma_u64_round(t0.nonce);
        lemma_u64_round(t0.fee);
        lemma_u64_round(t0.signer);
        lemma_u64_round(t0.hash);
        lemma_u64_round(t0.payload.len() as u64);
        assert(dec_u64(b.subrange(32, 40)) as int == pl);
        assert(b.subrange(40, 40 + pl) =~= t0.payload);
        let parsed = TxView {
            nonce: dec_u64(b.subrange(0, 8)),
            fee: dec_u64(b.subrange(8, 16)),
            signer: dec_u64(b.subrange(16, 24)),
            hash: dec_u64(b.subrange(24, 32)),
            payload: b.subrange(40, 40 + pl),
        };
        assert(parsed == t0);
        assert(b.skip(40 + pl) =~= enc_txs(tl) + rest);
        assert forall|j: int| 0 <= j < tl.len() implies (#[trigger] tl[j]).payload.len()
            <= u64::MAX by {
            assert(tl[j] == ts[j + 1]);
        }
        lemma_txs_round(tl, rest);
        assert(seq![t0] + tl =~= ts);
    }
}

/// Encoded bodies followed by anything parse back to the bodies.
#[verifier::rlimit(100)]
proof fn lemma_bodies_round(bs: Seq<Seq<TxView>>, rest: Seq<u8>)
    requires
        forall|i: int| 0 <= i < bs.len() ==> (#[trigger] bs[i]).len() <= u64::MAX,
        forall|i: int, j: int|
            0 <= i < bs.len() && 0 <= j < bs[i].len() ==> (#[trigger] bs[i][j]).payload.len()
                <= u64::MAX,
    ensures
        dec_bodies(enc_bodies(bs) + rest, bs.len() as int) == Some::<(Seq<Seq<TxView>>, Seq<u8>)>(
            (bs, rest),
        ),
    decreases bs.len(),
{
    if bs.len() == 0 {
        assert(enc_bodies(bs) + rest =~= rest);
        assert(Seq::<Seq<TxView>>::empty() =~= bs);
    } else {
        let b0 = bs.first();
        let tl = bs.drop_first();
        let b = enc_bodies(bs) + rest;
        assert(enc_bodies(bs) == enc_u64(b0.len() as u64) + enc_txs(b0) + enc_bodies(tl));
        assert(b.len() >= 8);
        assert(b.take(8) =~= enc_u64(b0.len() as u64));
        lemma_u64_round(b0.len() as u64);
        assert(b.skip(8) =~= enc_txs(b0) + (enc_bodies(tl) + rest));
        assert(forall|j: int| 0 <= j < b0.len() ==> (#[trigger] b0[j]).payload.len() <= u64::MAX);
        lemma_txs_round(b0, enc_bodies(tl) + rest);
        assert(dec_txs(b.skip(8), b0.len() as int) == Some::<(Seq<TxView>, Seq<u8>)>(
            (b0, enc_bodies(tl) + rest),
        ));
        assert forall|i: int| 0 <= i < tl.len() implies (#[trigger] tl[i]).len() <= u64::MAX by {
            assert(tl[i] == bs[i + 1]);
        }
        assert forall|i: int, j: int|
            0 <= i < tl.len() && 0 <= j < tl[i].len() implies (#[trigger] tl[i][j]).payload.len()
            <= u64::MAX by {
            assert(tl[i] == bs[i + 1]);
        }
        lemma_bodies_round(tl, rest);
        assert(seq![b0] + tl =~= bs);
    }
}

/// Header-list messages round-trip.
#[verifier::rlimit(100)]
proof fn lemma_round_headers(hs: Seq<Header>)
    requires
        hs.len() <= u64::MAX,
    ensures
        dec_message(enc_message(MessageView::Headers(hs))) == Ok::<MessageView, DecoderError>(
            MessageView::Headers(hs),
        ),
{
    let e = enc_message(MessageView::Headers(hs));
    let body = e.skip(1);
    assert(e[0] == MESSAGE_ID_HEADERS);
    lemma_enc_headers_at(hs);
    assert(body.len() == 8 + 24 * hs.len());
    assert(body.take(8) =~= enc_u64(hs.len() as u64));
    lemma_u64_round(hs.len() as u64);
    let rest = body.skip(8);
    assert(rest =~= enc_headers(hs));
    let n = dec_u64(body.take(8)) as int;
    assert(n == hs.len());
    assert(rest.len() == n * 24);
    let out = Seq::new(n as nat, |i: int| dec_header(rest.subrange(24 * i, 24 * i + 24)));
    assert forall|i: int| 0 <= i < hs.len() implies out[i] == hs[i] by {
        assert(enc_headers(hs).subrange(24 * i, 24 * i + 24) =~= enc_header(hs[i]));
        assert(rest.subrange(24 * i, 24 * i + 24) =~= enc_header(hs[i]));
        lemma_header_round(hs[i]);
    }
    assert(out =~= hs);
}

/// Body-request messages round-trip.
#[verifier::rlimit(100)]
proof fn lemma_round_request_bodies(hs: Seq<u64>)
    requires
        hs.len() <= u64::MAX,
    ensures
        dec_message(enc_message(MessageView::RequestBodies(hs))) == Ok::<
            MessageView,
            DecoderError,
        >(MessageView::RequestBodies(hs)),
{
    let e = enc_message(MessageView::RequestBodies(hs));
    let body = e.skip(1);
    assert(e[0] == MESSAGE_ID_REQUEST_BODIES);
    lemma_enc_hashes_at(hs);
    assert(body.len() == 8 + 8 * hs.len());
    assert(body.take(8) =~= enc_u64(hs.len() as u64));
    lemma_u64_round(hs.len() as u64);
    let rest = body.skip(8);
    assert(rest =~= enc_hashes(hs));
    let n = dec_u64(body.take(8)) as int;
    assert(n == hs.len());
    assert(rest.len() == n * 8);
    let out = Seq::new(n as nat, |i: int| dec_u64(rest.subrange(8 * i, 8 * i + 8)));
    assert forall|i: int| 0 <= i < hs.len() implies out[i] == hs[i] by {
        assert(enc_hashes(hs).subrange(8 * i, 8 * i + 8) =~= enc_u64(hs[i]));
        assert(rest.subrange(8 * i, 8 * i + 8) =~= enc_u64(hs[i]));
        lemma_u64_round(hs[i]);
    }
    assert(out =~= hs);
}

/// Block-body messages round-trip.
#[verifier::rlimit(100)]
proof fn lemma_round_bodies(bs: Seq<Seq<TxView>>)
    requires
        bs.len() <= u64::MAX,
        forall|i: int| 0 <= i < bs.len() ==> (#[trigger] bs[i]).len() <= u64::MAX,
        forall|i: int, j: int|
            0 <= i < bs.len() && 0 <= j < bs[i].len() ==> (#[trigger] bs[i][j]).payload.len()
                <= u64::MAX,
    ensures
        dec_message(enc_message(MessageView::Bodies(bs))) == Ok::<MessageView, DecoderError>(
            MessageView::Bodies(bs),
        ),
{
    let e = enc_message(MessageView::Bodies(bs));
    let body = e.skip(1);
    assert(e[0] == MESSAGE_ID_BODIES);
    assert(body.len() >= 8);
    assert(body.take(8) =~= enc_u64(bs.len() as u64));
    lemma_u64_round(bs.len() as u64);
    assert(body.skip(8) =~= enc_bodies(bs) + Seq::<u8>::empty());
    lemma_bodies_round(bs, Seq::empty());
    let n = dec_u64(body.take(8)) as int;
    assert(n == bs.len());
    assert(dec_bodies(body.skip(8), n) == Some::<(Seq<Seq<TxView>>, Seq<u8>)>(
        (bs, Seq::empty()),
    ));
}

/// Wire round-trip: decoding an encoded message yields that message, for
/// every message kind and every content whose counts fit on the wire.
#[verifier::rlimit(100)]
pub proof fn lemma_message_round_trip(m: MessageView)
    requires
        msg_wf(m),
    ensures
        dec_message(enc_message(m)) == Ok::<MessageView, DecoderError>(m),
{
    let e = enc_message(m);
    match m {
        MessageView::Status { total_score, best_hash, genesis_hash } => {
            let body = e.skip(1);
            assert(e[0] == MESSAGE_ID_STATUS);
            assert(body.len() == 24);
            assert(body.subrange(0, 8) =~= enc_u64(total_score));
            assert(body.subrange(8, 16) =~= enc_u64(best_hash));
            assert(body.subrange(16, 24) =~= enc_u64(genesis_hash));
            lemma_u64_round(total_score);
            lemma_u64_round(best_hash);
            lemma_u64_round(genesis_hash);
        },
        MessageView::RequestHeaders { start_number, max_count } => {
            let body = e.skip(1);
            assert(e[0] == MESSAGE_ID_REQUEST_HEADERS);
            assert(body.len() == 16);
            assert(body.subrange(0, 8) =~= enc_u64(start_number));
            assert(body.subrange(8, 16) =~= enc_u64(max_count));
            lemma_u64_round(start_number);
            lemma_u64_round(max_count);
        },
        MessageView::Headers(hs) => {
            lemma_round_headers(hs);
        },
        MessageView::RequestBodies(hs) => {
            lemma_round_request_bodies(hs);
        },
        MessageView::Bodies(bs) => {
            lemma_round_bodies(bs);
        },
    }
}

} // verus!
