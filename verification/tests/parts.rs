use blooms_db::db::Positions;
use blooms_db::meta::{hash_bytes, Meta};
use blooms_db::pending::Pending;
use blooms_db::{Bloom, Error, File};

fn bloom(value: u64) -> Bloom {
    Bloom::from_bytes(ethbloom::Bloom::from(value).0)
}

#[test]
fn positions_follow_the_index() {
    let pos = Positions::from_index(0);
    assert_eq!((pos.top, pos.mid, pos.bot), (0, 0, 0));
    let pos = Positions::from_index(255);
    assert_eq!((pos.top, pos.mid, pos.bot), (0, 15, 255));
    let pos = Positions::from_index(256);
    assert_eq!((pos.top, pos.mid, pos.bot), (1, 16, 256));
    let pos = Positions::from_index(0x1234);
    assert_eq!((pos.top, pos.mid, pos.bot), (0x12, 0x123, 0x1234));
    let pos = Positions::from_index(u64::MAX);
    assert_eq!((pos.top, pos.mid, pos.bot), (u64::MAX >> 8, u64::MAX >> 4, u64::MAX));
}

#[test]
fn checksum_of_known_bytes() {
    assert_eq!(hash_bytes(b""), 0xcbf29ce484222325);
    assert_eq!(hash_bytes(b"a"), 0xaf63dc4c8601ec8c);
    assert_eq!(hash_bytes(b"foobar"), 0x85944171f73967e8);
    assert_ne!(hash_bytes(&[0u8]), hash_bytes(&[0u8, 0u8]));
}

#[test]
fn bloom_zero_and_default_have_no_bit() {
    assert_eq!(Bloom::zero().bytes, [0u8; 256]);
    assert_eq!(Bloom::default(), Bloom::zero());
    assert_eq!(Bloom::zero().data(), &[0u8; 256]);
}

#[test]
fn accrue_is_a_union() {
    let mut target = bloom(0x0f01);
    target.accrue_bloom(&bloom(0x10f0));
    assert_eq!(target, bloom(0x1ff1));
    let mut again = target;
    again.accrue_bloom(&bloom(0x10f0));
    assert_eq!(again, target);
    let mut bytes = [0u8; 256];
    bytes[0] = 0x80;
    let mut high = Bloom::from_bytes(bytes);
    high.accrue_bloom(&bloom(1));
    assert_eq!(high.bytes[0], 0x80);
    assert_eq!(high.bytes[255], 1);
}

#[test]
fn contains_is_a_superset_test() {
    assert!(bloom(0x11).contains_bloom(&bloom(0x01)));
    assert!(bloom(0x11).contains_bloom(&bloom(0x11)));
    assert!(!bloom(0x01).contains_bloom(&bloom(0x11)));
    assert!(!bloom(0x01).contains_bloom(&bloom(0x100)));
    assert!(bloom(0x01).contains_bloom(&Bloom::zero()));
    assert!(Bloom::zero().contains_bloom(&Bloom::zero()));
}

#[test]
fn store_grows_with_empty_blooms() {
    let mut file = File::new();
    assert_eq!(file.len(), 0);
    assert_eq!(file.read_bloom(0), Err(Error::Exhausted));
    file.replace_bloom(2, &bloom(0x33)).unwrap();
    assert_eq!(file.len(), 3);
    assert_eq!(file.read_bloom(0), Ok(Bloom::zero()));
    assert_eq!(file.read_bloom(1), Ok(Bloom::zero()));
    assert_eq!(file.read_bloom(2), Ok(bloom(0x33)));
    file.replace_bloom(0, &bloom(0x01)).unwrap();
    assert_eq!(file.len(), 3);
    assert_eq!(file.read_bloom(0), Ok(bloom(0x01)));
    file.replace_bloom(0, &bloom(0x02)).unwrap();
    assert_eq!(file.read_bloom(0), Ok(bloom(0x02)));
}

#[test]
fn store_accrues_into_a_record() {
    let mut file = File::new();
    file.accrue_bloom(1, &bloom(0x01)).unwrap();
    file.accrue_bloom(1, &bloom(0x10)).unwrap();
    assert_eq!(file.len(), 2);
    assert_eq!(file.read_bloom(0), Ok(Bloom::zero()));
    assert_eq!(file.read_bloom(1), Ok(bloom(0x11)));
}

#[test]
fn store_refuses_a_position_out_of_space() {
    let mut file = File::new();
    assert_eq!(file.replace_bloom(u64::MAX, &bloom(1)), Err(Error::OutOfSpace));
    assert_eq!(file.accrue_bloom(u64::MAX / 256, &bloom(1)), Err(Error::OutOfSpace));
    assert_eq!(file.len(), 0);
}

#[test]
fn store_round_trips_through_bytes() {
    let mut file = File::new();
    file.replace_bloom(0, &bloom(0x01)).unwrap();
    file.replace_bloom(1, &bloom(0x0203)).unwrap();
    let bytes = file.to_bytes();
    assert_eq!(bytes.len(), 512);
    assert_eq!(bytes[255], 0x01);
    assert_eq!(bytes[510], 0x02);
    assert_eq!(bytes[511], 0x03);
    let back = File::open(&bytes);
    assert_eq!(back.len(), 2);
    assert_eq!(back.read_bloom(1), Ok(bloom(0x0203)));
    let cut = File::open(&bytes[..300]);
    assert_eq!(cut.len(), 1);
    assert_eq!(cut.read_bloom(0), Ok(bloom(0x01)));
}

#[test]
fn cursor_reads_and_skips() {
    let mut file = File::new();
    file.replace_bloom(0, &bloom(1)).unwrap();
    file.replace_bloom(1, &bloom(2)).unwrap();
    file.replace_bloom(2, &bloom(3)).unwrap();
    let mut cursor = file.iterator();
    assert_eq!(cursor.next(), Some(bloom(1)));
    cursor.advance(1);
    assert_eq!(cursor.next(), Some(bloom(3)));
    assert_eq!(cursor.next(), None);
    assert_eq!(cursor.next(), None);
    let mut cursor = file.iterator_from(1);
    assert_eq!(cursor.next(), Some(bloom(2)));
    let mut cursor = file.iterator_from(0);
    cursor.advance(100);
    assert_eq!(cursor.next(), None);
}

#[test]
fn log_entry_is_index_then_bloom() {
    let mut log = Pending::open(Vec::new());
    log.append(0x0102030405060708, &bloom(0xaa));
    let bytes = log.as_bytes();
    assert_eq!(bytes.len(), 264);
    assert_eq!(&bytes[..8], &[8u8, 7, 6, 5, 4, 3, 2, 1]);
    assert_eq!(&bytes[8..], &bloom(0xaa).bytes[..]);
    log.append(1, &bloom(0xbb));
    assert_eq!(log.as_bytes().len(), 528);
    assert_eq!(log.as_bytes()[264], 1);
}

#[test]
fn log_replays_in_append_order() {
    let mut log = Pending::open(Vec::new());
    log.append(0x0102030405060708, &bloom(0xaa));
    log.append(3, &bloom(0xbb));
    let mut iter = log.iterator();
    assert_eq!(iter.next(), Some(Ok((0x0102030405060708, bloom(0xaa)))));
    assert_eq!(iter.next(), Some(Ok((3, bloom(0xbb)))));
    assert_eq!(iter.next(), None);
    assert_eq!(iter.next(), None);
}

#[test]
fn log_reports_a_cut_off_entry_once() {
    let mut log = Pending::open(Vec::new());
    log.append(5, &bloom(0xaa));
    log.append(6, &bloom(0xbb));
    let mut bytes = log.as_bytes().to_vec();
    bytes.truncate(264 + 8);
    let cut = Pending::open(bytes);
    let mut iter = cut.iterator();
    assert_eq!(iter.next(), Some(Ok((5, bloom(0xaa)))));
    assert_eq!(iter.next(), Some(Err(Error::TruncatedEntry)));
    assert_eq!(iter.next(), None);

    let mut bytes = log.as_bytes().to_vec();
    bytes.truncate(264 + 7);
    let cut = Pending::open(bytes);
    let mut iter = cut.iterator();
    assert_eq!(iter.next(), Some(Ok((5, bloom(0xaa)))));
    assert_eq!(iter.next(), None);
}

#[test]
fn log_clear_and_hash() {
    let mut log = Pending::open(vec![1u8, 2, 3]);
    assert_eq!(log.hash(), hash_bytes(&[1u8, 2, 3]));
    log.clear();
    assert_eq!(log.as_bytes().len(), 0);
    assert_eq!(log.hash(), 0xcbf29ce484222325);
}

#[test]
fn error_messages() {
    assert_eq!(Error::MalformedPending.message(), "Malformed pending file");
    assert_eq!(Error::Exhausted.message(), "Record store exhausted");
    assert_eq!(Error::OutOfSpace.message(), "Record position out of space");
    assert_eq!(Error::TruncatedEntry.message(), "Truncated pending entry");
}

#[test]
fn metadata_is_version_then_fingerprint() {
    let meta = Meta { version: 1, pending_hash: 0x1122334455667788 };
    let bytes = meta.to_bytes();
    assert_eq!(bytes, vec![1u8, 0, 0, 0, 0, 0, 0, 0, 0x88, 0x77, 0x66, 0x55, 0x44, 0x33, 0x22, 0x11]);
    assert_eq!(Meta::from_bytes(&bytes), Some(meta));
}

#[test]
fn metadata_of_another_length_is_refused() {
    assert_eq!(Meta::from_bytes(&Vec::new()), None);
    assert_eq!(Meta::from_bytes(&vec![0u8; 15]), None);
    assert_eq!(Meta::from_bytes(&vec![0u8; 17]), None);
    assert_eq!(Meta::from_bytes(&vec![0u8; 16]), Some(Meta { version: 0, pending_hash: 0 }));
}
