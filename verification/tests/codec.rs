use feed_alerts::codec::decode;
use feed_alerts::codec::encode;
use feed_alerts::codec::BatchEntry;
use feed_alerts::codec::FeedBatch;
use feed_alerts::codec::Quote;
use feed_alerts::errors::FeedError;

fn push_u16(out: &mut Vec<u8>, n: u16) {
    out.push((n & 0xff) as u8);
    out.push((n >> 8) as u8);
}

fn push_u64(out: &mut Vec<u8>, n: u64) {
    for k in 0..8 {
        out.push(((n >> (8 * k)) & 0xff) as u8);
    }
}

fn ltpc_frame(key: &[u8], price: u64, close_price: u64) -> Vec<u8> {
    let mut out = Vec::new();
    push_u16(&mut out, 1);
    push_u16(&mut out, key.len() as u16);
    out.extend_from_slice(key);
    out.push(0);
    push_u64(&mut out, price);
    push_u64(&mut out, close_price);
    out
}

#[test]
fn ltpc_decodes_exact_price() {
    // 101.50 in fixed-point hundredths
    let frame = ltpc_frame(b"NSE_X", 10150, 10000);
    let batch = decode(&frame).expect("valid frame");
    assert_eq!(batch.entries.len(), 1);
    assert_eq!(batch.entries[0].key, b"NSE_X".to_vec());
    assert!(matches!(
        batch.entries[0].quote,
        Quote::Ltpc { price: 10150, close_price: 10000 }
    ));
}

#[test]
fn truncated_frame_fails_decode() {
    let frame = ltpc_frame(b"NSE_X", 10150, 10000);
    for cut in 0..frame.len() {
        assert!(matches!(decode(&frame[..cut]), Err(FeedError::Protocol)));
    }
}

#[test]
fn trailing_bytes_fail_decode() {
    let mut frame = ltpc_frame(b"NSE_X", 10150, 10000);
    frame.push(0);
    assert!(matches!(decode(&frame), Err(FeedError::Protocol)));
}

#[test]
fn unknown_tag_fails_decode() {
    let mut out = Vec::new();
    push_u16(&mut out, 1);
    push_u16(&mut out, 1);
    out.push(b'K');
    out.push(9);
    for _ in 0..16 {
        out.push(0);
    }
    assert!(matches!(decode(&out), Err(FeedError::Protocol)));
}

#[test]
fn all_variants_decode() {
    let mut out = Vec::new();
    push_u16(&mut out, 3);
    push_u16(&mut out, 1);
    out.push(b'A');
    out.push(0);
    push_u64(&mut out, 100);
    push_u64(&mut out, 90);
    push_u16(&mut out, 1);
    out.push(b'B');
    out.push(1);
    push_u64(&mut out, 200);
    push_u64(&mut out, 190);
    push_u64(&mut out, 5000);
    push_u16(&mut out, 1);
    out.push(b'C');
    out.push(2);
    push_u64(&mut out, 300);
    push_u64(&mut out, 290);
    push_u64(&mut out, 310);
    let batch = decode(&out).expect("valid frame");
    assert_eq!(batch.entries.len(), 3);
    assert!(matches!(batch.entries[0].quote, Quote::Ltpc { price: 100, close_price: 90 }));
    assert!(matches!(
        batch.entries[1].quote,
        Quote::FullFeed { price: 200, close_price: 190, volume: 5000 }
    ));
    assert!(matches!(
        batch.entries[2].quote,
        Quote::FirstLevelWithGreeks { price: 300, bid_price: 290, ask_price: 310 }
    ));
}

#[test]
fn encode_matches_wire_format() {
    let batch = FeedBatch {
        entries: vec![BatchEntry {
            key: b"NSE_X".to_vec(),
            quote: Quote::Ltpc { price: 10150, close_price: 10000 },
        }],
    };
    let bytes = encode(&batch).expect("fits the wire format");
    assert_eq!(bytes, ltpc_frame(b"NSE_X", 10150, 10000));
}

#[test]
fn encode_then_decode_returns_the_batch() {
    let batch = FeedBatch {
        entries: vec![
            BatchEntry {
                key: b"NSE_X".to_vec(),
                quote: Quote::Ltpc { price: 10150, close_price: 10000 },
            },
            BatchEntry {
                key: b"NSE_Y".to_vec(),
                quote: Quote::FullFeed { price: 1, close_price: 2, volume: 3 },
            },
            BatchEntry {
                key: b"NSE_Z".to_vec(),
                quote: Quote::FirstLevelWithGreeks { price: 9, bid_price: 8, ask_price: 10 },
            },
        ],
    };
    let bytes = encode(&batch).expect("fits the wire format");
    let back = decode(&bytes).expect("own encoding decodes");
    assert_eq!(back.entries.len(), 3);
    assert_eq!(back.entries[0].key, b"NSE_X".to_vec());
    assert!(matches!(back.entries[0].quote, Quote::Ltpc { price: 10150, close_price: 10000 }));
    assert_eq!(back.entries[1].key, b"NSE_Y".to_vec());
    assert!(matches!(
        back.entries[1].quote,
        Quote::FullFeed { price: 1, close_price: 2, volume: 3 }
    ));
    assert_eq!(back.entries[2].key, b"NSE_Z".to_vec());
    assert!(matches!(
        back.entries[2].quote,
        Quote::FirstLevelWithGreeks { price: 9, bid_price: 8, ask_price: 10 }
    ));
}

#[test]
fn oversized_key_cannot_be_encoded() {
    let batch = FeedBatch {
        entries: vec![BatchEntry {
            key: vec![b'k'; 0x10000],
            quote: Quote::Ltpc { price: 1, close_price: 1 },
        }],
    };
    assert!(matches!(encode(&batch), Err(FeedError::Protocol)));
}

#[test]
fn empty_batch_decodes() {
    let mut out = Vec::new();
    push_u16(&mut out, 0);
    let batch = decode(&out).expect("valid frame");
    assert_eq!(batch.entries.len(), 0);
}
