use blooms_db::pending::Pending;
use blooms_db::{Bloom, Database, Error, File};

fn bloom(value: u64) -> Bloom {
    Bloom::from_bytes(ethbloom::Bloom::from(value).0)
}

fn empty_database() -> Database {
    Database::open(File::new(), File::new(), File::new(), Pending::open(Vec::new()), None).unwrap()
}

fn matching(database: &Database, from: u64, to: u64, bloom: &Bloom) -> Vec<u64> {
    database.iterate_matching(from, to, bloom).collect_matches().0
}

#[test]
fn it_works() {
    assert_eq!(2 + 2, 4);
}

#[test]
fn test_database() {
    let mut database = empty_database();
    database
        .insert_blooms(0, &vec![bloom(0), bloom(0x01), bloom(0x10), bloom(0x11)])
        .unwrap();
    database.flush().unwrap();

    let matches = matching(&database, 0, 3, &bloom(0));
    assert_eq!(matches, vec![0, 1, 2, 3]);

    let matches = matching(&database, 0, 4, &bloom(0));
    assert_eq!(matches, vec![0, 1, 2, 3]);

    let matches = matching(&database, 1, 3, &bloom(0));
    assert_eq!(matches, vec![1, 2, 3]);

    let matches = matching(&database, 1, 2, &bloom(0));
    assert_eq!(matches, vec![1, 2]);

    let matches = matching(&database, 0, 3, &bloom(0x01));
    assert_eq!(matches, vec![1, 3]);

    let matches = matching(&database, 0, 3, &bloom(0x10));
    assert_eq!(matches, vec![2, 3]);

    let matches = matching(&database, 2, 2, &bloom(0x10));
    assert_eq!(matches, vec![2]);
}

#[test]
fn test_database2() {
    let mut database = empty_database();
    database
        .insert_blooms(254, &vec![bloom(0x100), bloom(0x01), bloom(0x10), bloom(0x11)])
        .unwrap();
    database.flush().unwrap();

    let matches = matching(&database, 0, 257, &bloom(0x01));
    assert_eq!(matches, vec![255, 257]);

    let matches = matching(&database, 0, 258, &bloom(0x100));
    assert_eq!(matches, vec![254]);

    let matches = matching(&database, 0, 256, &bloom(0x01));
    assert_eq!(matches, vec![255]);

    let matches = matching(&database, 255, 255, &bloom(0x01));
    assert_eq!(matches, vec![255]);

    let matches = matching(&database, 256, 256, &bloom(0x10));
    assert_eq!(matches, vec![256]);

    let matches = matching(&database, 256, 257, &bloom(0x10));
    assert_eq!(matches, vec![256, 257]);
}

#[test]
fn scan_within_the_stored_range_ends_without_error() {
    let mut database = empty_database();
    database
        .insert_blooms(0, &vec![bloom(0), bloom(0x01), bloom(0x10), bloom(0x11)])
        .unwrap();
    database.flush().unwrap();
    let (matches, end) = database.iterate_matching(0, 3, &bloom(0x01)).collect_matches();
    assert_eq!(matches, vec![1, 3]);
    assert_eq!(end, Ok(()));
}

#[test]
fn scan_past_the_stored_range_reports_exhaustion() {
    let mut database = empty_database();
    database
        .insert_blooms(0, &vec![bloom(0), bloom(0x01), bloom(0x10), bloom(0x11)])
        .unwrap();
    database.flush().unwrap();
    let (matches, end) = database.iterate_matching(0, 4, &bloom(0)).collect_matches();
    assert_eq!(matches, vec![0, 1, 2, 3]);
    assert_eq!(end, Err(Error::Exhausted));

    let mut iter = database.iterate_matching(3, 10, &bloom(0x01));
    assert_eq!(iter.next(), Some(Ok(3)));
    assert_eq!(iter.next(), Some(Err(Error::Exhausted)));
}

#[test]
fn scan_of_an_empty_database_is_exhausted_at_once() {
    let database = empty_database();
    let (matches, end) = database.iterate_matching(0, 0, &bloom(0)).collect_matches();
    assert_eq!(matches, Vec::<u64>::new());
    assert_eq!(end, Err(Error::Exhausted));
}

#[test]
fn zero_bloom_matches_every_stored_index_in_range() {
    let mut database = empty_database();
    let blooms: Vec<Bloom> = (0..40u64).map(|i| bloom(i * 7 + 1)).collect();
    database.insert_blooms(250, &blooms).unwrap();
    database.flush().unwrap();
    let matches = matching(&database, 240, 289, &Bloom::zero());
    assert_eq!(matches, (240..=289u64).collect::<Vec<u64>>());
}

#[test]
fn single_index_range_yields_at_most_one_match() {
    let mut database = empty_database();
    database.insert_blooms(0, &vec![bloom(0x01), bloom(0x10)]).unwrap();
    database.flush().unwrap();
    assert_eq!(matching(&database, 1, 1, &bloom(0x10)), vec![1]);
    assert_eq!(matching(&database, 1, 1, &bloom(0x01)), Vec::<u64>::new());
    let mut iter = database.iterate_matching(0, 0, &bloom(0x01));
    assert_eq!(iter.next(), Some(Ok(0)));
    assert_eq!(iter.next(), None);
    assert_eq!(iter.next(), None);
}

#[test]
fn range_with_from_behind_to_is_empty() {
    let mut database = empty_database();
    database.insert_blooms(0, &vec![bloom(0x01); 300]).unwrap();
    database.flush().unwrap();
    let (matches, end) = database.iterate_matching(20, 10, &bloom(0x01)).collect_matches();
    assert_eq!(matches, Vec::<u64>::new());
    assert_eq!(end, Ok(()));
}

#[test]
fn blocks_without_the_bloom_are_skipped() {
    let mut database = empty_database();
    let mut blooms: Vec<Bloom> = vec![bloom(0x01); 600];
    blooms[300] = bloom(0x1000);
    blooms[599] = bloom(0x1001);
    database.insert_blooms(0, &blooms).unwrap();
    database.flush().unwrap();
    assert_eq!(matching(&database, 0, 599, &bloom(0x1000)), vec![300, 599]);
    assert_eq!(matching(&database, 301, 599, &bloom(0x1000)), vec![599]);
    assert_eq!(matching(&database, 0, 299, &bloom(0x1000)), Vec::<u64>::new());
}

#[test]
fn insert_leaves_the_levels_alone_until_flush() {
    let mut database = empty_database();
    database.insert_blooms(0, &vec![bloom(0x01), bloom(0x10)]).unwrap();
    assert_eq!(database.top().len(), 0);
    assert_eq!(database.mid().len(), 0);
    assert_eq!(database.bot().len(), 0);
    assert_eq!(database.pending().as_bytes().len(), 2 * 264);
    database.flush().unwrap();
    assert_eq!(database.top().len(), 1);
    assert_eq!(database.mid().len(), 1);
    assert_eq!(database.bot().len(), 2);
    assert_eq!(database.pending().as_bytes().len(), 0);
    assert_eq!(database.top().read_bloom(0), Ok(bloom(0x11)));
    assert_eq!(database.mid().read_bloom(0), Ok(bloom(0x11)));
    assert_eq!(database.bot().read_bloom(0), Ok(bloom(0x01)));
    assert_eq!(database.bot().read_bloom(1), Ok(bloom(0x10)));
    assert_eq!(database.bot().read_bloom(2), Err(Error::Exhausted));
}

#[test]
fn insert_across_block_boundaries_fills_both_blocks() {
    let mut database = empty_database();
    database
        .insert_blooms(254, &vec![bloom(0x100), bloom(0x01), bloom(0x10), bloom(0x11)])
        .unwrap();
    database.flush().unwrap();
    assert_eq!(database.top().len(), 2);
    assert_eq!(database.mid().len(), 17);
    assert_eq!(database.bot().len(), 258);
    assert_eq!(database.top().read_bloom(0), Ok(bloom(0x101)));
    assert_eq!(database.top().read_bloom(1), Ok(bloom(0x11)));
    assert_eq!(database.mid().read_bloom(14), Ok(Bloom::zero()));
    assert_eq!(database.mid().read_bloom(15), Ok(bloom(0x101)));
    assert_eq!(database.mid().read_bloom(16), Ok(bloom(0x11)));
    assert_eq!(database.bot().read_bloom(253), Ok(Bloom::zero()));
}

#[test]
fn replaying_a_log_twice_gives_the_same_levels() {
    let blooms = vec![bloom(0x100), bloom(0x01), bloom(0x10), bloom(0x11)];
    let mut once = empty_database();
    once.insert_blooms(254, &blooms).unwrap();
    once.insert_blooms(255, &vec![bloom(0x40)]).unwrap();
    let log: Vec<u8> = once.pending().as_bytes().to_vec();
    let meta = once.meta();
    once.flush().unwrap();

    let mut twice = Database::open(
        File::open(&once.top().to_bytes()),
        File::open(&once.mid().to_bytes()),
        File::open(&once.bot().to_bytes()),
        Pending::open(log),
        Some(meta),
    )
    .unwrap();
    twice.flush().unwrap();
    assert_eq!(twice.top().to_bytes(), once.top().to_bytes());
    assert_eq!(twice.mid().to_bytes(), once.mid().to_bytes());
    assert_eq!(twice.bot().to_bytes(), once.bot().to_bytes());
    assert_eq!(twice.bot().read_bloom(255), Ok(bloom(0x40)));
}

#[test]
fn open_accepts_the_metadata_of_the_log() {
    let mut database = empty_database();
    database.insert_blooms(7, &vec![bloom(0x01)]).unwrap();
    let log: Vec<u8> = database.pending().as_bytes().to_vec();
    let meta = database.meta();
    let reopened =
        Database::open(File::new(), File::new(), File::new(), Pending::open(log), Some(meta));
    assert!(reopened.is_ok());
}

#[test]
fn open_refuses_a_wrong_checksum() {
    let mut database = empty_database();
    database.insert_blooms(7, &vec![bloom(0x01)]).unwrap();
    let log: Vec<u8> = database.pending().as_bytes().to_vec();
    let mut meta = database.meta();
    meta.pending_hash ^= 1;
    let reopened =
        Database::open(File::new(), File::new(), File::new(), Pending::open(log), Some(meta));
    assert_eq!(reopened.err(), Some(Error::MalformedPending));
}

#[test]
fn open_refuses_a_log_cut_short_behind_its_metadata() {
    let mut database = empty_database();
    database.insert_blooms(7, &vec![bloom(0x01), bloom(0x02)]).unwrap();
    let mut log: Vec<u8> = database.pending().as_bytes().to_vec();
    let meta = database.meta();
    log.truncate(300);
    let reopened =
        Database::open(File::new(), File::new(), File::new(), Pending::open(log), Some(meta));
    assert_eq!(reopened.err(), Some(Error::MalformedPending));
}

#[test]
fn insert_refuses_indices_past_the_largest() {
    let mut database = empty_database();
    let res = database.insert_blooms(u64::MAX, &vec![bloom(0x01), bloom(0x02)]);
    assert_eq!(res, Err(Error::OutOfSpace));
    assert_eq!(database.pending().as_bytes().len(), 0);
    assert_eq!(database.insert_blooms(u64::MAX, &vec![bloom(0x01)]), Ok(()));
    assert_eq!(database.insert_blooms(u64::MAX, &Vec::new()), Ok(()));
}

#[test]
fn flush_refuses_an_index_that_no_store_can_hold() {
    let mut database = empty_database();
    database.insert_blooms(3, &vec![bloom(0x01)]).unwrap();
    database.insert_blooms(u64::MAX, &vec![bloom(0x02)]).unwrap();
    let log: Vec<u8> = database.pending().as_bytes().to_vec();
    assert_eq!(database.flush(), Err(Error::OutOfSpace));
    assert_eq!(database.bot().len(), 0);
    assert_eq!(database.top().len(), 0);
    assert_eq!(database.pending().as_bytes().to_vec(), log);
}

#[test]
fn flush_ignores_a_cut_off_last_entry() {
    let mut database = empty_database();
    database.insert_blooms(0, &vec![bloom(0x01), bloom(0x02)]).unwrap();
    let mut log: Vec<u8> = database.pending().as_bytes().to_vec();
    log.truncate(264 + 100);
    let mut cut =
        Database::open(File::new(), File::new(), File::new(), Pending::open(log), None).unwrap();
    assert_eq!(cut.flush(), Ok(()));
    assert_eq!(cut.bot().len(), 1);
    assert_eq!(cut.bot().read_bloom(0), Ok(bloom(0x01)));
    assert_eq!(cut.pending().as_bytes().len(), 0);
}

#[test]
fn metadata_follows_the_log() {
    let mut database = empty_database();
    assert_eq!(database.meta().version, blooms_db::meta::VERSION);
    assert_eq!(database.meta().pending_hash, 0xcbf29ce484222325);
    database.insert_blooms(0, &vec![bloom(0x01)]).unwrap();
    assert_eq!(
        database.meta().pending_hash,
        blooms_db::meta::hash_bytes(database.pending().as_bytes())
    );
    assert_ne!(database.meta().pending_hash, 0xcbf29ce484222325);
    database.flush().unwrap();
    assert_eq!(database.meta().pending_hash, 0xcbf29ce484222325);
}

#[test]
fn scan_agrees_with_a_plain_filter() {
    let mut database = empty_database();
    let blooms: Vec<Bloom> = (0..700u64).map(|i| bloom((i * i) % 16)).collect();
    database.insert_blooms(0, &blooms).unwrap();
    database.flush().unwrap();
    for query in [0u64, 1, 2, 5, 8, 15] {
        for (from, to) in [(0u64, 699u64), (17, 300), (255, 256), (256, 511), (600, 699), (3, 3)] {
            let expected: Vec<u64> = (from..=to)
                .filter(|i| bloom(query).bytes.iter().zip(blooms[*i as usize].bytes.iter()).all(|(q, b)| q & b == *q))
                .collect();
            let (matches, end) =
                database.iterate_matching(from, to, &bloom(query)).collect_matches();
            assert_eq!(matches, expected);
            assert_eq!(end, Ok(()));
        }
    }
}

#[test]
fn later_insert_replaces_the_bot_record_and_keeps_the_summaries() {
    let mut database = empty_database();
    database.insert_blooms(0, &vec![bloom(0x01), bloom(0x02)]).unwrap();
    database.flush().unwrap();
    database.insert_blooms(0, &vec![bloom(0x10)]).unwrap();
    database.flush().unwrap();
    assert_eq!(database.bot().read_bloom(0), Ok(bloom(0x10)));
    assert_eq!(database.mid().read_bloom(0), Ok(bloom(0x13)));
    assert_eq!(database.top().read_bloom(0), Ok(bloom(0x13)));
    assert_eq!(matching(&database, 0, 1, &bloom(0x01)), Vec::<u64>::new());
    assert_eq!(matching(&database, 0, 1, &bloom(0x10)), vec![0]);
}

#[test]
fn replay_after_an_interrupted_flush_gives_the_same_levels() {
    let mut once = empty_database();
    once.insert_blooms(14, &vec![bloom(0x01), bloom(0x02), bloom(0x04)]).unwrap();
    once.insert_blooms(15, &vec![bloom(0x08)]).unwrap();
    let log: Vec<u8> = once.pending().as_bytes().to_vec();
    once.flush().unwrap();

    let mut again = Database::open(
        File::open(&once.top().to_bytes()),
        File::new(),
        File::open(&once.bot().to_bytes()),
        Pending::open(log),
        None,
    )
    .unwrap();
    again.flush().unwrap();
    assert_eq!(again.top().to_bytes(), once.top().to_bytes());
    assert_eq!(again.mid().to_bytes(), once.mid().to_bytes());
    assert_eq!(again.bot().to_bytes(), once.bot().to_bytes());
    assert_eq!(again.mid().read_bloom(0), Ok(bloom(0x0b)));
    assert_eq!(again.mid().read_bloom(1), Ok(bloom(0x04)));
    assert_eq!(again.bot().read_bloom(15), Ok(bloom(0x08)));
}

#[test]
fn upper_levels_that_lack_a_bloom_hide_the_record() {
    let mut top = File::new();
    top.replace_bloom(0, &Bloom::zero()).unwrap();
    let mut mid = File::new();
    mid.replace_bloom(0, &bloom(0x01)).unwrap();
    let mut bot = File::new();
    bot.replace_bloom(0, &bloom(0x01)).unwrap();
    let database = Database::open(top, mid, bot, Pending::open(Vec::new()), None).unwrap();
    let (matches, end) = database.iterate_matching(0, 0, &bloom(0x01)).collect_matches();
    assert_eq!(matches, Vec::<u64>::new());
    assert_eq!(end, Ok(()));
    assert_eq!(matching(&database, 0, 0, &Bloom::zero()), vec![0]);
}

#[test]
fn steps_of_a_scan_one_by_one() {
    let mut database = empty_database();
    database
        .insert_blooms(254, &vec![bloom(0x100), bloom(0x01), bloom(0x10), bloom(0x11)])
        .unwrap();
    database.flush().unwrap();
    let mut iter = database.iterate_matching(0, 300, &bloom(0x10));
    assert_eq!(iter.next(), Some(Ok(256)));
    assert_eq!(iter.next(), Some(Ok(257)));
    assert_eq!(iter.next(), Some(Err(Error::Exhausted)));
    let mut iter = database.iterate_matching(255, 256, &bloom(0x11));
    assert_eq!(iter.next(), None);
}
