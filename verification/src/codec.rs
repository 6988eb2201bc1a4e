//! The binary tick protocol. A frame is a batch: a two-byte little-endian
//! entry count, then per entry a two-byte key length, the key bytes, a
//! one-byte variant tag and the variant's fixed-width fields, every integer
//! little-endian. Prices are fixed-point hundredths.
//!
//! [`parse_batch`] is the grammar; [`decode`] is its verified reader; a
//! frame that is not exactly one valid batch is a protocol error, fatal for
//! the session.

use vstd::prelude::*;
use crate::bytes::append_bytes;
use crate::bytes::copy_bytes;
use crate::errors::FeedError;

verus! {

/// The three quote variants of the feed. Only `Ltpc` drives evaluation; the
/// other two are decoded structurally and otherwise ignored.
#[derive(Clone, Copy, Debug, PartialEq, Eq, Structural)]
pub enum Quote {
    Ltpc { price: u64, close_price: u64 },
    FullFeed { price: u64, close_price: u64, volume: u64 },
    FirstLevelWithGreeks { price: u64, bid_price: u64, ask_price: u64 },
}

/// Mathematical image of one batch entry.
pub ghost struct EntryView {
    pub key: Seq<u8>,
    pub quote: Quote,
}

/// One decoded entry: an instrument key and its quote.
#[derive(Debug)]
pub struct BatchEntry {
    pub key: Vec<u8>,
    pub quote: Quote,
}

impl View for BatchEntry {
    type V = EntryView;

    open spec fn view(&self) -> EntryView {
        EntryView { key: self.key@, quote: self.quote }
    }
}

/// The views of decoded entries.
pub open spec fn entries_view(entries: Seq<BatchEntry>) -> Seq<EntryView> {
    entries.map_values(|e: BatchEntry| e@)
}

/// One decoded frame: entries in wire order.
#[derive(Debug)]
pub struct FeedBatch {
    pub entries: Vec<BatchEntry>,
}

impl View for FeedBatch {
    type V = Seq<EntryView>;

    open spec fn view(&self) -> Seq<EntryView> {
        entries_view(self.entries@)
    }
}

/// 256 to the `k`.
pub open spec fn pow256(k: nat) -> int
    decreases k,
{
    if k == 0 {
        1
    } else {
        256 * pow256((k - 1) as nat)
    }
}

/// The little-endian value of a byte string.
pub open spec fn dec_le(b: Seq<u8>) -> int
    decreases b.len(),
{
    if b.len() == 0 {
        0
    } else {
        b[0] + 256 * dec_le(b.drop_first())
    }
}

/// The `k`-byte little-endian encoding of `n`.
pub open spec fn enc_le(n: int, k: nat) -> Seq<u8>
    decreases k,
{
    if k == 0 {
        Seq::empty()
    } else {
        seq![(n % 256) as u8] + enc_le(n / 256, (k - 1) as nat)
    }
}

/// A little-endian value is bounded by 256 to the width.
pub proof fn lemma_dec_le_bound(b: Seq<u8>)
    ensures
        0 <= dec_le(b) < pow256(b.len()),
    decreases b.len(),
{
    if b.len() > 0 {
        lemma_dec_le_bound(b.drop_first());
        assert(dec_le(b) == b[0] + 256 * dec_le(b.drop_first()));
        assert(b[0] < 256);
        assert(256 * dec_le(b.drop_first()) <= 256 * (pow256(b.drop_first().len()) - 1))
            by (nonlinear_arith)
            requires
                dec_le(b.drop_first()) <= pow256(b.drop_first().len()) - 1,
        ;
    }
}

/// Reading back a little-endian encoding gives the value encoded.
pub proof fn lemma_enc_dec_le(n: int, k: nat)
    requires
        0 <= n < pow256(k),
    ensures
        dec_le(enc_le(n, k)) == n,
        enc_le(n, k).len() == k,
    decreases k,
{
    if k > 0 {
        assert(0 <= n % 256 < 256 && n == 256 * (n / 256) + n % 256) by (nonlinear_arith)
            requires
                n >= 0,
        ;
        assert(n / 256 < pow256((k - 1) as nat)) by (nonlinear_arith)
            requires
                0 <= n < 256 * pow256((k - 1) as nat),
        ;
        lemma_enc_dec_le(n / 256, (k - 1) as nat);
        let e = enc_le(n, k);
        assert(e.drop_first() =~= enc_le(n / 256, (k - 1) as nat));
        assert(e[0] == (n % 256) as u8);
    }
}

/// The wire form of one entry.
pub open spec fn enc_entry(e: EntryView) -> Seq<u8> {
    enc_le(e.key.len() as int, 2) + e.key + match e.quote {
        Quote::Ltpc { price, close_price } => seq![0u8] + enc_le(price as int, 8) + enc_le(
            close_price as int,
            8,
        ),
        Quote::FullFeed { price, close_price, volume } => seq![1u8] + enc_le(price as int, 8)
            + enc_le(close_price as int, 8) + enc_le(volume as int, 8),
        Quote::FirstLevelWithGreeks { price, bid_price, ask_price } => seq![2u8] + enc_le(
            price as int,
            8,
        ) + enc_le(bid_price as int, 8) + enc_le(ask_price as int, 8),
    }
}

/// The wire form of a run of entries, in order.
pub open spec fn enc_entries(entries: Seq<EntryView>) -> Seq<u8>
    decreases entries.len(),
{
    if entries.len() == 0 {
        Seq::empty()
    } else {
        enc_entry(entries.first()) + enc_entries(entries.drop_first())
    }
}

/// An entry fits the wire format when its key length fits two bytes.
pub open spec fn entry_encodable(e: EntryView) -> bool {
    e.key.len() < 0x10000
}

/// A batch fits the wire format when its count and all its keys do.
pub open spec fn batch_encodable(entries: Seq<EntryView>) -> bool {
    entries.len() < 0x10000 && forall|i: int|
        0 <= i < entries.len() ==> entry_encodable(#[trigger] entries[i])
}

/// The wire form of a whole batch.
pub open spec fn enc_batch(entries: Seq<EntryView>) -> Seq<u8> {
    enc_le(entries.len() as int, 2) + enc_entries(entries)
}

/// Grammar of one entry at the front of `b`: the entry and the bytes left.
pub open spec fn parse_entry(b: Seq<u8>) -> Option<(EntryView, Seq<u8>)> {
    if b.len() < 2 {
        None
    } else {
        let klen = dec_le(b.take(2));
        if b.len() < 3 + klen {
            None
        } else {
            let key = b.subrange(2, 2 + klen);
            let tag = b[2 + klen];
            let body = b.skip(3 + klen);
            if tag == 0 {
                if body.len() < 16 {
                    None
                } else {
                    Some(
                        (
                            EntryView {
                                key,
                                quote: Quote::Ltpc {
                                    price: dec_le(body.take(8)) as u64,
                                    close_price: dec_le(body.subrange(8, 16)) as u64,
                                },
                            },
                            body.skip(16),
                        ),
                    )
                }
            } else if tag == 1 {
                if body.len() < 24 {
                    None
                } else {
                    Some(
                        (
                            EntryView {
                                key,
                                quote: Quote::FullFeed {
                                    price: dec_le(body.take(8)) as u64,
                                    close_price: dec_le(body.subrange(8, 16)) as u64,
                                    volume: dec_le(body.subrange(16, 24)) as u64,
                                },
                            },
                            body.skip(24),
                        ),
                    )
                }
            } else if tag == 2 {
                if body.len() < 24 {
                    None
                } else {
                    Some(
                        (
                            EntryView {
                                key,
                                quote: Quote::FirstLevelWithGreeks {
                                    price: dec_le(body.take(8)) as u64,
                                    bid_price: dec_le(body.subrange(8, 16)) as u64,
                                    ask_price: dec_le(body.subrange(16, 24)) as u64,
                                },
                            },
                            body.skip(24),
                        ),
                    )
                }
            } else {
                None
            }
        }
    }
}

/// Grammar of `n` entries at the front of `b`.
pub open spec fn parse_entries(b: Seq<u8>, n: nat) -> Option<(Seq<EntryView>, Seq<u8>)>
    decreases n,
{
    if n == 0 {
        Some((Seq::empty(), b))
    } else {
        match parse_entry(b) {
            None => None,
            Some((e, rest)) => match parse_entries(rest, (n - 1) as nat) {
                None => None,
                Some((es, rest2)) => Some((seq![e] + es, rest2)),
            },
        }
    }
}

/// Grammar of a whole frame: a count, that many entries, nothing left over.
pub open spec fn parse_batch(b: Seq<u8>) -> Option<Seq<EntryView>> {
    if b.len() < 2 {
        None
    } else {
        match parse_entries(b.skip(2), dec_le(b.take(2)) as nat) {
            None => None,
            Some((es, rest)) => if rest.len() == 0 {
                Some(es)
            } else {
                None
            },
        }
    }
}

/// Append the `width`-byte little-endian encoding of `n`.
fn append_le(out: &mut Vec<u8>, n: u64, width: usize)
    ensures
        final(out)@ == old(out)@ + enc_le(n as int, width as nat),
{
    let mut m: u64 = n;
    let mut j: usize = 0;
    while j < width
        invariant
            j <= width,
            out@ + enc_le(m as int, (width - j) as nat) == old(out)@ + enc_le(
                n as int,
                width as nat,
            ),
        decreases width - j,
    {
        let ghost pre = out@;
        let ghost m0 = m as int;
        out.push((m % 256) as u8);
        m = m / 256;
        j += 1;
        proof {
            assert(enc_le(m0, (width - j + 1) as nat) == seq![(m0 % 256) as u8] + enc_le(
                m0 / 256,
                (width - j) as nat,
            ));
            assert(out@ + enc_le(m as int, (width - j) as nat) =~= pre + enc_le(
                m0,
                (width - j + 1) as nat,
            ));
        }
    }
    proof {
        assert(out@ + enc_le(m as int, 0) =~= out@);
    }
}

/// Append the wire form of one entry.
fn append_entry(out: &mut Vec<u8>, entry: &BatchEntry)
    requires
        entry_encodable(entry@),
    ensures
        final(out)@ == old(out)@ + enc_entry(entry@),
{
    append_le(out, entry.key.len() as u64, 2);
    append_bytes(out, entry.key.as_slice());
    match entry.quote {
        Quote::Ltpc { price, close_price } => {
            out.push(0);
            append_le(out, price, 8);
            append_le(out, close_price, 8);
        },
        Quote::FullFeed { price, close_price, volume } => {
            out.push(1);
            append_le(out, price, 8);
            append_le(out, close_price, 8);
            append_le(out, volume, 8);
        },
        Quote::FirstLevelWithGreeks { price, bid_price, ask_price } => {
            out.push(2);
            append_le(out, price, 8);
            append_le(out, bid_price, 8);
            append_le(out, ask_price, 8);
        },
    }
    proof {
        assert(out@ =~= old(out)@ + enc_entry(entry@));
    }
}

/// Appending one more entry extends the wire form of a run by its own
/// wire form.
proof fn lemma_enc_entries_snoc(es: Seq<EntryView>, e: EntryView)
    ensures
        enc_entries(es.push(e)) == enc_entries(es) + enc_entry(e),
    decreases es.len(),
{
    let snoc = es.push(e);
    assert(snoc.len() == es.len() + 1);
    assert(enc_entries(snoc) == enc_entry(snoc.first()) + enc_entries(snoc.drop_first()));
    if es.len() == 0 {
        assert(snoc.drop_first() =~= Seq::<EntryView>::empty());
        assert(enc_entries(snoc.drop_first()) == Seq::<u8>::empty());
        assert(snoc.first() == e);
        assert(enc_entries(es) == Seq::<u8>::empty());
        assert(enc_entry(e) + Seq::<u8>::empty() =~= enc_entry(e));
        assert(Seq::<u8>::empty() + enc_entry(e) =~= enc_entry(e));
    } else {
        assert(snoc.first() == es.first());
        assert(snoc.drop_first() =~= es.drop_first().push(e));
        lemma_enc_entries_snoc(es.drop_first(), e);
        assert(enc_entries(es) == enc_entry(es.first()) + enc_entries(es.drop_first()));
        assert(enc_entry(es.first()) + (enc_entries(es.drop_first()) + enc_entry(e)) =~= (
        enc_entry(es.first()) + enc_entries(es.drop_first())) + enc_entry(e));
    }
}

/// Encode a batch for the wire. Refused only where the batch cannot fit
/// the format: a count or a key length beyond two bytes.
pub fn encode(batch: &FeedBatch) -> (r: Result<Vec<u8>, FeedError>)
    ensures
        match r {
            Ok(bytes) => batch_encodable(batch@) && bytes@ == enc_batch(batch@),
            Err(e) => !batch_encodable(batch@) && e == FeedError::Protocol,
        },
{
    let n = batch.entries.len();
    if n >= 0x10000 {
        return Err(FeedError::Protocol);
    }
    let mut i: usize = 0;
    while i < n
        invariant
            i <= n,
            n == batch@.len(),
            batch@.len() == batch.entries@.len(),
            forall|j: int| 0 <= j < i ==> entry_encodable(#[trigger] batch@[j]),
        decreases n - i,
    {
        proof {
            assert(batch@[i as int] == batch.entries@[i as int]@);
        }
        if batch.entries[i].key.len() >= 0x10000 {
            proof {
                assert(!entry_encodable(batch@[i as int]));
            }
            return Err(FeedError::Protocol);
        }
        i += 1;
    }
    let mut out: Vec<u8> = Vec::new();
    append_le(&mut out, n as u64, 2);
    proof {
        assert(batch@.take(0) =~= Seq::<EntryView>::empty());
        assert(out@ =~= enc_le(batch@.len() as int, 2) + enc_entries(batch@.take(0)));
    }
    let mut k: usize = 0;
    while k < n
        invariant
            k <= n,
            n == batch@.len(),
            batch@.len() == batch.entries@.len(),
            forall|j: int| 0 <= j < n ==> entry_encodable(#[trigger] batch@[j]),
            out@ == enc_le(batch@.len() as int, 2) + enc_entries(batch@.take(k as int)),
        decreases n - k,
    {
        proof {
            assert(batch@[k as int] == batch.entries@[k as int]@);
        }
        let ghost pre = out@;
        append_entry(&mut out, &batch.entries[k]);
        proof {
            assert(batch@.take(k + 1) =~= batch@.take(k as int).push(batch@[k as int]));
            lemma_enc_entries_snoc(batch@.take(k as int), batch@[k as int]);
            assert(out@ =~= enc_le(batch@.len() as int, 2) + enc_entries(batch@.take(k + 1)));
        }
        k += 1;
    }
    proof {
        assert(batch@.take(n as int) =~= batch@);
    }
    Ok(out)
}

/// Parsing reads back exactly what encoding wrote for one entry, leaving
/// the bytes behind it untouched.
proof fn lemma_parse_enc_entry(e: EntryView, tail: Seq<u8>)
    requires
        entry_encodable(e),
    ensures
        parse_entry(enc_entry(e) + tail) == Some((e, tail)),
{
    let klen = e.key.len() as int;
    let b = enc_entry(e) + tail;
    assert(pow256(2) == 0x10000) by {
        reveal_with_fuel(pow256, 3);
    }
    assert(pow256(8) == 0x10000000000000000) by {
        reveal_with_fuel(pow256, 9);
    }
    lemma_enc_dec_le(klen, 2);
    assert(b.take(2) =~= enc_le(klen, 2));
    assert(b.subrange(2, 2 + klen) =~= e.key);
    let body = b.skip(3 + klen);
    match e.quote {
        Quote::Ltpc { price, close_price } => {
            lemma_enc_dec_le(price as int, 8);
            lemma_enc_dec_le(close_price as int, 8);
            assert(b[2 + klen] == 0u8);
            assert(body.take(8) =~= enc_le(price as int, 8));
            assert(body.subrange(8, 16) =~= enc_le(close_price as int, 8));
            assert(body.skip(16) =~= tail);
        },
        Quote::FullFeed { price, close_price, volume } => {
            lemma_enc_dec_le(price as int, 8);
            lemma_enc_dec_le(close_price as int, 8);
            lemma_enc_dec_le(volume as int, 8);
            assert(b[2 + klen] == 1u8);
            assert(body.take(8) =~= enc_le(price as int, 8));
            assert(body.subrange(8, 16) =~= enc_le(close_price as int, 8));
            assert(body.subrange(16, 24) =~= enc_le(volume as int, 8));
            assert(body.skip(24) =~= tail);
        },
        Quote::FirstLevelWithGreeks { price, bid_price, ask_price } => {
            lemma_enc_dec_le(price as int, 8);
            lemma_enc_dec_le(bid_price as int, 8);
            lemma_enc_dec_le(ask_price as int, 8);
            assert(b[2 + klen] == 2u8);
            assert(body.take(8) =~= enc_le(price as int, 8));
            assert(body.subrange(8, 16) =~= enc_le(bid_price as int, 8));
            assert(body.subrange(16, 24) =~= enc_le(ask_price as int, 8));
            assert(body.skip(24) =~= tail);
        },
    }
}

/// Parsing reads back a run of encoded entries, in order.
proof fn lemma_parse_enc_entries(es: Seq<EntryView>, rest: Seq<u8>)
    requires
        forall|i: int| 0 <= i < es.len() ==> entry_encodable(#[trigger] es[i]),
    ensures
        parse_entries(enc_entries(es) + rest, es.len() as nat) == Some((es, rest)),
    decreases es.len(),
{
    if es.len() == 0 {
        assert(enc_entries(es) + rest =~= rest);
        assert(es =~= Seq::<EntryView>::empty());
    } else {
        let b = enc_entries(es) + rest;
        assert(b =~= enc_entry(es.first()) + (enc_entries(es.drop_first()) + rest));
        assert(entry_encodable(es[0]));
        lemma_parse_enc_entry(es.first(), enc_entries(es.drop_first()) + rest);
        assert forall|i: int| 0 <= i < es.drop_first().len() implies entry_encodable(
            #[trigger] es.drop_first()[i],
        ) by {
            assert(es.drop_first()[i] == es[i + 1]);
        }
        lemma_parse_enc_entries(es.drop_first(), rest);
        assert(seq![es.first()] + es.drop_first() =~= es);
    }
}

/// Round trip: a batch that fits the wire format decodes, from its own
/// encoding, to exactly itself. In particular an encoded `Ltpc` entry comes
/// back with its exact price.
pub proof fn lemma_codec_round_trip(entries: Seq<EntryView>)
    requires
        batch_encodable(entries),
    ensures
        parse_batch(enc_batch(entries)) == Some(entries),
{
    let b = enc_batch(entries);
    assert(pow256(2) == 0x10000) by {
        reveal_with_fuel(pow256, 3);
    }
    lemma_enc_dec_le(entries.len() as int, 2);
    assert(b.take(2) =~= enc_le(entries.len() as int, 2));
    assert(b.skip(2) =~= enc_entries(entries) + Seq::<u8>::empty());
    lemma_parse_enc_entries(entries, Seq::empty());
}

/// Read two little-endian bytes.
fn read_u16(b: &[u8], pos: usize) -> (r: u16)
    requires
        pos + 2 <= b@.len(),
    ensures
        r as int == dec_le(b@.subrange(pos as int, pos + 2)),
{
    let r = (b[pos] as u16) + 256 * (b[pos + 1] as u16);
    proof {
        reveal_with_fuel(dec_le, 3);
        let s = b@.subrange(pos as int, pos + 2);
        assert(s[0] == b@[pos as int]);
        assert(s.drop_first() =~= b@.subrange(pos + 1, pos + 2));
        assert(s.drop_first()[0] == b@[pos + 1]);
        assert(s.drop_first().drop_first() =~= Seq::<u8>::empty());
    }
    r
}

/// Read eight little-endian bytes.
fn read_u64(b: &[u8], pos: usize) -> (r: u64)
    requires
        pos + 8 <= b@.len(),
    ensures
        r as int == dec_le(b@.subrange(pos as int, pos + 8)),
{
    let blen = b.len();
    let mut acc: u64 = 0;
    let mut k: usize = 8;
    proof {
        assert(b@.subrange(pos + 8, pos + 8) =~= Seq::<u8>::empty());
    }
    while k > 0
        invariant
            k <= 8,
            pos + 8 <= blen,
            blen == b@.len(),
            acc as int == dec_le(b@.subrange(pos + k, pos + 8)),
        decreases k,
    {
        k -= 1;
        proof {
            let s = b@.subrange(pos + k, pos + 8);
            assert(s[0] == b@[pos + k]);
            assert(s.drop_first() =~= b@.subrange(pos + k + 1, pos + 8));
            lemma_dec_le_bound(s.drop_first());
            assert(pow256(s.drop_first().len()) <= pow256(7)) by {
                lemma_pow256_monotone(s.drop_first().len(), 7);
            }
            assert(pow256(7) == 0x100000000000000) by {
                reveal_with_fuel(pow256, 8);
            }
        }
        acc = acc * 256 + (b[pos + k] as u64);
    }
    acc
}

/// Wider widths bound larger values.
proof fn lemma_pow256_monotone(a: nat, b: nat)
    requires
        a <= b,
    ensures
        pow256(a) <= pow256(b),
        pow256(a) >= 1,
    decreases b,
{
    if b > 0 {
        if a == b {
            lemma_pow256_monotone((a - 1) as nat, (b - 1) as nat);
        } else {
            lemma_pow256_monotone(a, (b - 1) as nat);
        }
    }
}

/// Read one entry from the front of `b`, reporting how many bytes it used.
fn parse_entry_exec(b: &[u8]) -> (r: Option<(BatchEntry, usize)>)
    ensures
        match r {
            Some((entry, used)) => {
                &&& parse_entry(b@) == Some((entry@, b@.skip(used as int)))
                &&& 0 < used <= b@.len()
            },
            None => parse_entry(b@) is None,
        },
{
    if b.len() < 2 {
        return None;
    }
    let klen = read_u16(b, 0) as usize;
    proof {
        assert(b@.subrange(0, 2) =~= b@.take(2));
        lemma_dec_le_bound(b@.take(2));
    }
    if b.len() < 3 + klen {
        return None;
    }
    let key = copy_bytes(&b[2..2 + klen]);
    let tag = b[2 + klen];
    let body_start = 3 + klen;
    let ghost body = b@.skip(body_start as int);
    proof {
        assert(key@ =~= b@.subrange(2, 2 + klen as int));
    }
    if tag == 0 {
        if b.len() - body_start < 16 {
            return None;
        }
        let price = read_u64(b, body_start);
        let close_price = read_u64(b, body_start + 8);
        proof {
            assert(body.take(8) =~= b@.subrange(body_start as int, body_start + 8));
            assert(body.subrange(8, 16) =~= b@.subrange(body_start + 8, body_start + 16));
            assert(body.skip(16) =~= b@.skip(body_start + 16));
        }
        let entry = BatchEntry { key, quote: Quote::Ltpc { price, close_price } };
        Some((entry, body_start + 16))
    } else if tag == 1 {
        if b.len() - body_start < 24 {
            return None;
        }
        let price = read_u64(b, body_start);
        let close_price = read_u64(b, body_start + 8);
        let volume = read_u64(b, body_start + 16);
        proof {
            assert(body.take(8) =~= b@.subrange(body_start as int, body_start + 8));
            assert(body.subrange(8, 16) =~= b@.subrange(body_start + 8, body_start + 16));
            assert(body.subrange(16, 24) =~= b@.subrange(body_start + 16, body_start + 24));
            assert(body.skip(24) =~= b@.skip(body_start + 24));
        }
        let entry = BatchEntry { key, quote: Quote::FullFeed { price, close_price, volume } };
        Some((entry, body_start + 24))
    } else if tag == 2 {
        if b.len() - body_start < 24 {
            return None;
        }
        let price = read_u64(b, body_start);
        let bid_price = read_u64(b, body_start + 8);
        let ask_price = read_u64(b, body_start + 16);
        proof {
            assert(body.take(8) =~= b@.subrange(body_start as int, body_start + 8));
            assert(body.subrange(8, 16) =~= b@.subrange(body_start + 8, body_start + 16));
            assert(body.subrange(16, 24) =~= b@.subrange(body_start + 16, body_start + 24));
            assert(body.skip(24) =~= b@.skip(body_start + 24));
        }
        let entry = BatchEntry {
            key,
            quote: Quote::FirstLevelWithGreeks { price, bid_price, ask_price },
        };
        Some((entry, body_start + 24))
    } else {
        None
    }
}

/// What remains to be parsed agrees with the whole frame's grammar.
spec fn decode_invariant(
    whole: Seq<u8>,
    acc: Seq<EntryView>,
    rest: Seq<u8>,
    n: nat,
) -> bool {
    parse_batch(whole) == (match parse_entries(rest, n) {
        None => None::<Seq<EntryView>>,
        Some((es, left)) => if left.len() == 0 {
            Some(acc + es)
        } else {
            None
        },
    })
}

/// Decode one inbound frame. The result reflects [`parse_batch`] exactly:
/// a well-formed frame yields its entries, anything else is a protocol
/// error.
pub fn decode(bytes: &[u8]) -> (r: Result<FeedBatch, FeedError>)
    ensures
        match r {
            Ok(batch) => parse_batch(bytes@) == Some(batch@),
            Err(e) => parse_batch(bytes@) is None && e == FeedError::Protocol,
        },
{
    if bytes.len() < 2 {
        return Err(FeedError::Protocol);
    }
    let count = read_u16(bytes, 0) as usize;
    proof {
        assert(bytes@.subrange(0, 2) =~= bytes@.take(2));
        lemma_dec_le_bound(bytes@.take(2));
    }
    let mut entries: Vec<BatchEntry> = Vec::new();
    let mut pos: usize = 2;
    let mut remaining: usize = count;
    proof {
        assert(entries_view(entries@) =~= Seq::<EntryView>::empty());
        assert(decode_invariant(bytes@, entries_view(entries@), bytes@.skip(2), count as nat))
            by {
            if parse_entries(bytes@.skip(2), count as nat) is Some {
                let (es, left) = parse_entries(bytes@.skip(2), count as nat)->Some_0;
                assert(Seq::<EntryView>::empty() + es =~= es);
            }
        }
    }
    while remaining > 0
        invariant
            pos <= bytes@.len(),
            decode_invariant(
                bytes@,
                entries_view(entries@),
                bytes@.skip(pos as int),
                remaining as nat,
            ),
        decreases remaining,
    {
        let ghost rest = bytes@.skip(pos as int);
        let ghost acc = entries_view(entries@);
        match parse_entry_exec(&bytes[pos..bytes.len()]) {
            None => {
                proof {
                    assert(parse_entries(rest, remaining as nat) is None);
                }
                return Err(FeedError::Protocol);
            },
            Some((entry, used)) => {
                proof {
                    assert(parse_entry(rest) == Some((entry@, rest.skip(used as int))));
                    assert(rest.skip(used as int) =~= bytes@.skip(pos + used));
                }
                let ghost ev = entry@;
                entries.push(entry);
                pos = pos + used;
                remaining = remaining - 1;
                proof {
                    assert(entries_view(entries@) =~= acc.push(ev));
                    assert(decode_invariant(
                        bytes@,
                        entries_view(entries@),
                        bytes@.skip(pos as int),
                        remaining as nat,
                    )) by {
                        if parse_entries(bytes@.skip(pos as int), remaining as nat) is Some {
                            let (es, left) = parse_entries(
                                bytes@.skip(pos as int),
                                remaining as nat,
                            )->Some_0;
                            assert(acc + (seq![ev] + es) =~= acc.push(ev) + es);
                        }
                    }
                }
            },
        }
    }
    if pos != bytes.len() {
        proof {
            assert(bytes@.skip(pos as int).len() > 0);
        }
        return Err(FeedError::Protocol);
    }
    proof {
        assert(bytes@.skip(pos as int).len() == 0);
        let es_left = parse_entries(bytes@.skip(pos as int), 0);
        assert(es_left == Some((Seq::<EntryView>::empty(), bytes@.skip(pos as int))));
        assert(entries_view(entries@) + Seq::<EntryView>::empty() =~= entries_view(entries@));
    }
    Ok(FeedBatch { entries })
}

} // verus!
