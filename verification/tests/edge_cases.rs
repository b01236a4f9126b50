use synap_server::text::{i64_text, u64_text, usize_text};
use synap_server::bitmap::{BitfieldOverflow, BitmapValue};
use synap_server::compressor::{CompressionAlgorithm, CompressionConfig, Compressor};
use synap_server::consumer_group::{AssignmentStrategy, ConsumerGroup, ConsumerGroupConfig};
use synap_server::password::PasswordRequirements;
use synap_server::transaction::Transaction;

#[test]
fn bitfield_wrap_reduces_modulo_the_width() {
    let mut bitmap = BitmapValue::new(None);
    let v = bitmap.bitfield_incrby(0, 4, false, 100, BitfieldOverflow::Wrap).unwrap();
    assert_eq!(v, 4);
    assert_eq!(bitmap.bitfield_get(0, 4, false).unwrap(), 4);
    let w = bitmap.bitfield_incrby(0, 4, true, -30, BitfieldOverflow::Wrap).unwrap();
    // 4 - 30 = -26, which is 6 modulo 16, read as a signed 4-bit field.
    assert_eq!(w, 6);
    assert_eq!(bitmap.bitfield_get(0, 4, true).unwrap(), 6);
}

#[test]
fn bitfield_get_reads_the_bits_that_exist() {
    let mut b = BitmapValue::new(None);
    assert_eq!(b.bitfield_set(0, 8, false, 255).unwrap(), 0);
    assert_eq!(b.bitfield_get(4, 4, false).unwrap(), 15);
    assert_eq!(b.bitfield_get(4, 8, false).unwrap(), 15);
    assert_eq!(b.bitfield_get(0, 8, true).unwrap(), -1);
    assert!(b.bitfield_get(0, 0, false).is_err());
    assert!(b.bitfield_get(0, 65, false).is_err());
}

#[test]
fn bitpos_on_an_empty_bitmap_finds_nothing() {
    let b = BitmapValue::new(None);
    assert_eq!(b.bitpos(0, None, None), None);
    assert_eq!(b.bitpos(1, None, None), None);
    let mut c = BitmapValue::new(None);
    c.setbit(5, 1).unwrap();
    assert_eq!(c.bitpos(1, None, None), Some(5));
    assert_eq!(c.bitpos(0, None, None), Some(0));
    assert_eq!(c.bitpos(1, Some(6), None), None);
}

#[test]
fn sticky_rebalance_keeps_every_partition() {
    let config = ConsumerGroupConfig { strategy: AssignmentStrategy::Sticky, ..Default::default() };
    let mut g = ConsumerGroup::new_at("g".to_string(), "t".to_string(), 2, config, 0);
    g.join_at("a".to_string(), 30, 0);
    g.rebalance_at(0).unwrap();
    assert_eq!(g.get_assignment("a").unwrap(), vec![0, 1]);
    g.join_at("b".to_string(), 30, 0);
    g.join_at("c".to_string(), 30, 0);
    g.rebalance_at(0).unwrap();
    let mut all: Vec<usize> = Vec::new();
    for id in ["a", "b", "c"] {
        all.extend(g.get_assignment(id).unwrap());
    }
    all.sort();
    assert_eq!(all, vec![0, 1]);
    assert_eq!(g.get_assignment("a").unwrap(), vec![0]);
    assert_eq!(g.get_assignment("b").unwrap(), vec![1]);
}

#[test]
fn password_length_counts_characters() {
    let req = PasswordRequirements::default();
    // Four characters, eight bytes.
    assert!(req.validate("\u{e9}\u{e9}\u{e9}\u{e9}").is_err());
    assert!(req.validate("\u{e9}\u{e9}\u{e9}\u{e9}\u{e9}\u{e9}\u{e9}\u{e9}").is_ok());
}

#[test]
fn enabled_compression_succeeds_for_both_algorithms() {
    let config = CompressionConfig { enabled: true, min_payload_size: 4, ..Default::default() };
    let c = Compressor::new(config);
    let data = b"abcdabcdabcdabcdabcdabcd".to_vec();
    for algo in [CompressionAlgorithm::Lz4, CompressionAlgorithm::Zstd] {
        let packed = c.compress(&data, Some(algo)).unwrap();
        assert_ne!(packed, data);
        assert_eq!(c.decompress(&packed, algo).unwrap(), data);
    }
}

#[test]
fn discard_keeps_owner_and_start() {
    let mut t = Transaction::new_at("client".to_string(), 7);
    t.discard();
    assert!(t.is_empty());
    assert_eq!(t.client_id, "client");
    assert_eq!(t.started_at, 7);
}

#[test]
fn decimal_texts_match_to_string() {
    assert_eq!(i64_text(0), "0");
    assert_eq!(i64_text(-7), "-7");
    assert_eq!(i64_text(i64::MIN), i64::MIN.to_string());
    assert_eq!(i64_text(i64::MAX), i64::MAX.to_string());
    assert_eq!(u64_text(u64::MAX), u64::MAX.to_string());
    assert_eq!(usize_text(1234567), "1234567");
}
