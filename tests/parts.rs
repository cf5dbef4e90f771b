use span_store::codec::{deserialize_be_u32, deserialize_be_u64, KeySerializer, StoreError};
use span_store::kv::MemoryStore;
use span_store::protocol::ServerProtocol;
use span_store::retention::{snowflake_from_duration, SnowflakeIdGenerator, SNOWFLAKE_EPOCH};
use span_store::text::{ipv4_to_text, ipv6_to_text};
use span_store::undelete::Core;
use span_store::kv::BatchBuilder;

#[test]
fn protocol_names() {
    assert_eq!(ServerProtocol::Smtp.as_str(), "smtp");
    assert_eq!(ServerProtocol::Lmtp.as_str(), "lmtp");
    assert_eq!(ServerProtocol::Imap.as_str(), "imap");
    assert_eq!(ServerProtocol::Pop3.as_str(), "pop3");
    assert_eq!(ServerProtocol::Http.as_str(), "http");
    assert_eq!(ServerProtocol::ManageSieve.as_str(), "managesieve");
    assert_eq!(ServerProtocol::default(), ServerProtocol::Smtp);
}

#[test]
fn key_codec_fields() {
    let k = KeySerializer::new(0).write_u8(1).write_u16(0x0203).write_u32(0x0405_0607).write_u64(8).write_bytes(b"xy").finalize();
    assert_eq!(k, vec![1, 2, 3, 4, 5, 6, 7, 0, 0, 0, 0, 0, 0, 0, 8, b'x', b'y']);
    assert_eq!(deserialize_be_u32(&k, 3), Ok(0x0405_0607));
    assert_eq!(deserialize_be_u64(&k, 7), Ok(8));
    assert_eq!(deserialize_be_u32(&k, 15), Err(StoreError::CorruptKey));
    assert_eq!(deserialize_be_u64(&k, 10), Err(StoreError::CorruptKey));
}

#[test]
fn snowflake_cutoff() {
    let now = SNOWFLAKE_EPOCH + 6000;
    assert_eq!(snowflake_from_duration(now, 1000), Some(5000u64 << 22));
    assert_eq!(snowflake_from_duration(now, 6000), Some(0));
    assert_eq!(snowflake_from_duration(now, 6001), None);
    assert_eq!(snowflake_from_duration(10, 20), None);
    let mut store = MemoryStore::new();
    assert_eq!(store.purge_spans(10, 20), Err(StoreError::UnexpectedError));
    assert_eq!(store.purge_spans(now, 1000), Ok(()));
}

#[test]
fn ip_texts() {
    assert_eq!(ipv4_to_text(0xC0A8_010A), b"192.168.1.10".to_vec());
    assert_eq!(ipv4_to_text(0), b"0.0.0.0".to_vec());
    assert_eq!(ipv6_to_text(0), b"::".to_vec());
    assert_eq!(ipv6_to_text(1), b"::1".to_vec());
    assert_eq!(ipv6_to_text(0x2001_0db8_0000_0000_0000_0000_0000_0001), b"2001:db8::1".to_vec());
    assert_eq!(ipv6_to_text(0xffff_0102_0304), b"::ffff:1.2.3.4".to_vec());
    assert_eq!(ipv6_to_text(0x0001_0000_0000_0002_0000_0000_0000_0003), b"1:0:0:2::3".to_vec());
    assert_eq!(ipv6_to_text(0x0001_0000_0000_0002_0000_0000_0003_0004), b"1::2:0:0:3:4".to_vec());
    assert_eq!(ipv6_to_text(0x0001_0002_0003_0004_0005_0006_0007_abcd), b"1:2:3:4:5:6:7:abcd".to_vec());
    assert_eq!(ipv6_to_text(0x0001_0000_0002_0003_0004_0005_0006_0007), b"1:0:2:3:4:5:6:7".to_vec());
}

#[test]
fn undelete_reservation_listed_until_expiry() {
    let core = Core { undelete_retention: Some(60) };
    let hash: Vec<u8> = (0..32u8).collect();
    let mut batch = BatchBuilder::new();
    core.hold_undelete(&mut batch, 1, 3, &hash, 4096, 1000);
    let mut store = MemoryStore::new();
    store.write(batch);
    let listed = core.list_deleted(&store, 1, 1030).unwrap();
    assert_eq!(listed.len(), 1);
    assert_eq!(listed[0].size, 4096);
    assert_eq!(listed[0].deleted_at, 1000);
    assert_eq!(listed[0].expires_at, 1060);
    assert_eq!(listed[0].collection, 3);
    assert_eq!(listed[0].hash, hash);
    assert_eq!(core.list_deleted(&store, 1, 1100).unwrap().len(), 0);
    assert_eq!(core.list_deleted(&store, 2, 1030).unwrap().len(), 0);
}

#[test]
fn undelete_without_policy_does_nothing() {
    let core = Core { undelete_retention: None };
    let mut batch = BatchBuilder::new();
    core.hold_undelete(&mut batch, 1, 3, &[0u8; 32], 10, 1000);
    assert!(batch.is_empty());
}

#[test]
fn short_reservation_key_is_corrupt() {
    let core = Core { undelete_retention: Some(60) };
    let mut store = MemoryStore::new();
    let mut batch = BatchBuilder::new();
    let mut key = vec![98, 2, 0, 0, 0, 1];
    key.extend_from_slice(&[0, 0, 0, 0, 0, 0, 0x10, 0]);
    batch.set(key, vec![0; 13]);
    store.write(batch);
    assert_eq!(core.list_deleted(&store, 1, 5).map(|v| v.len()), Err(StoreError::CorruptKey));
}

#[test]
fn snowflake_ids_grow() {
    let mut gen = SnowflakeIdGenerator::new(3);
    let t = SNOWFLAKE_EPOCH + 10;
    let a = gen.generate(t).unwrap();
    assert_eq!(a, (10u64 << 22) | (3 << 12));
    let b = gen.generate(t).unwrap();
    assert_eq!(b, a + 1);
    let c = gen.generate(t - 5).unwrap();
    assert_eq!(c, a + 2);
    let d = gen.generate(t + 1).unwrap();
    assert_eq!(d, (11u64 << 22) | (3 << 12));
    assert!(a < b && b < c && c < d);
    assert_eq!(gen.generate(5), None);
    for _ in 0..4095 {
        gen.generate(t + 1).unwrap();
    }
    assert_eq!(gen.generate(t + 1), None);
    assert!(gen.generate(t + 2).is_some());
}

#[test]
fn reservation_key_without_expiry_is_corrupt() {
    let core = Core { undelete_retention: Some(60) };
    let mut store = MemoryStore::new();
    let mut batch = BatchBuilder::new();
    batch.set(vec![98, 2, 0, 0, 0, 1, 7], vec![0; 3]);
    store.write(batch);
    assert_eq!(core.list_deleted(&store, 1, 5).map(|v| v.len()), Err(StoreError::CorruptKey));
    assert_eq!(core.list_deleted(&store, 2, 5).map(|v| v.len()), Ok(0));
}

#[test]
fn reservations_listed_in_key_order() {
    let core = Core { undelete_retention: Some(60) };
    let mut batch = BatchBuilder::new();
    core.hold_undelete(&mut batch, 1, 1, &[9u8; 32], 10, 1000);
    core.hold_undelete(&mut batch, 1, 2, &[4u8; 32], 20, 1000);
    core.hold_undelete(&mut batch, 1, 3, &[6u8; 32], 30, 1000);
    let mut store = MemoryStore::new();
    store.write(batch);
    let listed = core.list_deleted(&store, 1, 1001).unwrap();
    let sizes: Vec<usize> = listed.iter().map(|b| b.size).collect();
    assert_eq!(sizes, vec![20, 30, 10]);
}

#[test]
fn prefix_scan_is_sorted() {
    let mut store = MemoryStore::new();
    let mut batch = BatchBuilder::new();
    for k in [vec![1u8, 5], vec![1, 2, 9], vec![1], vec![1, 2], vec![2, 0]] {
        batch.set(k, vec![]);
    }
    store.write(batch);
    assert_eq!(store.keys_with_prefix(&[1]), vec![vec![1], vec![1, 2], vec![1, 2, 9], vec![1, 5]]);
}
