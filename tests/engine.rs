use kvs::{KvStore, KvsError, COMPACTION_THRESHOLD};

/// A log held in memory, with the store that stands for it: the same reads and
/// writes that the file layer performs on `kvs.db`.
struct Disk {
    log: Vec<u8>,
    store: KvStore,
}

impl Disk {
    fn open(log: Vec<u8>) -> Result<Disk, KvsError> {
        let store = KvStore::open(&log)?;
        Ok(Disk { log, store })
    }

    fn empty() -> Disk {
        Disk::open(Vec::new()).unwrap()
    }

    fn set(&mut self, key: &str, value: &str) {
        assert!(self.store.has_room(key, value));
        let (rec, compaction) = self.store.set(key.to_owned(), value.to_owned());
        self.log.extend_from_slice(&rec);
        if let Some(plan) = compaction {
            self.copy(plan);
        }
        assert!(!self.store.needs_compaction());
    }

    fn remove(&mut self, key: &str) -> Result<(), KvsError> {
        assert!(self.store.has_room(key, ""));
        let (rec, compaction) = self.store.remove(key.to_owned())?;
        self.log.extend_from_slice(&rec);
        if let Some(plan) = compaction {
            self.copy(plan);
        }
        assert!(!self.store.needs_compaction());
        Ok(())
    }

    fn get(&self, key: &str) -> Result<Option<String>, KvsError> {
        match self.store.locate(key) {
            None => Ok(None),
            Some((offset, len)) => {
                let record = &self.log[offset as usize..(offset + len) as usize];
                KvStore::read_value(key, record).map(Some)
            }
        }
    }

    fn compact(&mut self) {
        let plan = self.store.compact();
        self.copy(plan);
    }

    fn copy(&mut self, plan: Vec<(u64, u64)>) {
        let mut fresh = Vec::new();
        for (offset, len) in plan {
            fresh.extend_from_slice(&self.log[offset as usize..(offset + len) as usize]);
        }
        self.log = fresh;
    }

    fn reopen(self) -> Disk {
        Disk::open(self.log).unwrap()
    }
}

#[test]
fn open_empty_log_get_none() {
    let disk = Disk::empty();
    assert_eq!(disk.get("k").unwrap(), None);
    assert_eq!(disk.store.log_len(), 0);
    assert_eq!(disk.store.dead_bytes(), 0);
}

#[test]
fn reopen_keeps_latest_values() {
    let mut disk = Disk::empty();
    disk.set("a", "1");
    disk.set("b", "2");
    disk.set("a", "3");
    let disk = disk.reopen();
    assert_eq!(disk.get("a").unwrap(), Some("3".to_owned()));
    assert_eq!(disk.get("b").unwrap(), Some("2".to_owned()));
    assert_eq!(disk.get("c").unwrap(), None);
}

#[test]
fn remove_then_get_none_also_after_reopen() {
    let mut disk = Disk::empty();
    disk.set("a", "1");
    disk.remove("a").unwrap();
    assert_eq!(disk.get("a").unwrap(), None);
    let disk = disk.reopen();
    assert_eq!(disk.get("a").unwrap(), None);
}

#[test]
fn remove_missing_key_fails_and_appends_nothing() {
    let mut disk = Disk::empty();
    disk.set("x", "1");
    let before = disk.log.len();
    assert!(matches!(disk.remove("missing"), Err(KvsError::KeyNotFound)));
    assert_eq!(disk.log.len(), before);
    assert_eq!(disk.store.log_len() as usize, before);
}

#[test]
fn remove_twice_fails_the_second_time() {
    let mut disk = Disk::empty();
    disk.set("a", "1");
    disk.remove("a").unwrap();
    let before = disk.log.len();
    assert!(matches!(disk.remove("a"), Err(KvsError::KeyNotFound)));
    assert_eq!(disk.log.len(), before);
}

#[test]
fn repeated_large_sets_trigger_compaction() {
    let mut disk = Disk::empty();
    let mut compactions = 0;
    for i in 0..1200 {
        let value = format!("{:04}{}", i, "v".repeat(1020));
        let before = disk.store.dead_bytes();
        disk.set("k", &value);
        if disk.store.dead_bytes() < before {
            compactions += 1;
            assert_eq!(disk.store.dead_bytes(), 0);
            assert_eq!(disk.get("k").unwrap(), Some(value.clone()));
            assert!(disk.log.len() <= 4096);
            // Only the live record of "k" is left.
            assert_eq!(disk.store.locate("k"), Some((0, disk.log.len() as u64)));
        }
        assert!(disk.store.dead_bytes() <= COMPACTION_THRESHOLD);
    }
    assert!(compactions >= 1);
    let last = format!("{:04}{}", 1199, "v".repeat(1020));
    assert_eq!(disk.get("k").unwrap(), Some(last.clone()));
    let disk = disk.reopen();
    assert_eq!(disk.get("k").unwrap(), Some(last));
}

#[test]
fn garbage_after_log_fails_open() {
    let mut disk = Disk::empty();
    disk.set("a", "1");
    let mut log = disk.log.clone();
    log.extend_from_slice(b"garbage");
    assert!(matches!(KvStore::open(&log), Err(KvsError::BadFormat)));
}

#[test]
fn read_your_writes() {
    let mut disk = Disk::empty();
    disk.set("key", "value");
    assert_eq!(disk.get("key").unwrap(), Some("value".to_owned()));
    disk.set("other", "x");
    disk.remove("other").unwrap();
    assert_eq!(disk.get("key").unwrap(), Some("value".to_owned()));
}

#[test]
fn overwrite_answers_latest() {
    let mut disk = Disk::empty();
    disk.set("k", "v1");
    disk.set("k", "v2");
    assert_eq!(disk.get("k").unwrap(), Some("v2".to_owned()));
}

#[test]
fn persistence_of_mixed_mutations() {
    let mut disk = Disk::empty();
    disk.set("a", "1");
    disk.set("b", "2");
    disk.remove("a").unwrap();
    disk.set("c", "3");
    disk.set("b", "22");
    let dead = disk.store.dead_bytes();
    let disk = disk.reopen();
    assert_eq!(disk.get("a").unwrap(), None);
    assert_eq!(disk.get("b").unwrap(), Some("22".to_owned()));
    assert_eq!(disk.get("c").unwrap(), Some("3".to_owned()));
    assert_eq!(disk.store.dead_bytes(), dead);
}

#[test]
fn compaction_keeps_answers_and_clears_dead_bytes() {
    let mut disk = Disk::empty();
    disk.set("a", "1");
    disk.set("b", "2");
    disk.set("a", "3");
    disk.remove("b").unwrap();
    disk.set("c", "4");
    assert!(disk.store.dead_bytes() > 0);
    disk.compact();
    assert_eq!(disk.store.dead_bytes(), 0);
    assert_eq!(disk.get("a").unwrap(), Some("3".to_owned()));
    assert_eq!(disk.get("b").unwrap(), None);
    assert_eq!(disk.get("c").unwrap(), Some("4".to_owned()));
    // Two live records of 31 bytes each.
    assert_eq!(disk.log.len(), 62);
    assert_eq!(disk.store.log_len(), 62);
    let disk = disk.reopen();
    assert_eq!(disk.get("a").unwrap(), Some("3".to_owned()));
    assert_eq!(disk.get("c").unwrap(), Some("4".to_owned()));
    assert_eq!(disk.store.dead_bytes(), 0);
}

#[test]
fn dead_bytes_count_overwrites_and_tombstones() {
    let mut disk = Disk::empty();
    disk.set("a", "1");
    assert_eq!(disk.store.log_len(), 31);
    assert_eq!(disk.store.dead_bytes(), 0);
    disk.set("a", "2");
    assert_eq!(disk.store.dead_bytes(), 31);
    disk.remove("a").unwrap();
    // The second Set record and the 18-byte tombstone.
    assert_eq!(disk.store.dead_bytes(), 31 + 31 + 18);
    assert_eq!(disk.store.log_len(), 31 + 31 + 18);
}

#[test]
fn compaction_threshold_is_one_mebibyte() {
    assert_eq!(COMPACTION_THRESHOLD, 1024 * 1024);
    let disk = Disk::empty();
    assert!(!disk.store.needs_compaction());
}

#[test]
fn compaction_of_empty_store_gives_empty_log() {
    let mut store = KvStore::new();
    let plan = store.compact();
    assert!(plan.is_empty());
    assert_eq!(store.log_len(), 0);
}

#[test]
fn legacy_get_records_are_skipped() {
    let mut log = Vec::new();
    log.extend_from_slice(br#"{"Set":{"key":"a","value":"1"}}"#);
    log.extend_from_slice(br#"{"Get":{"key":"a"}}"#);
    log.extend_from_slice(br#"{"Set":{"key":"b","value":"2"}}"#);
    let disk = Disk::open(log).unwrap();
    assert_eq!(disk.get("a").unwrap(), Some("1".to_owned()));
    assert_eq!(disk.get("b").unwrap(), Some("2".to_owned()));
    assert_eq!(disk.store.dead_bytes(), 0);
}

#[test]
fn log_with_torn_record_fails_open() {
    let log = br#"{"Set":{"key":"a","value":"1"}}{"Set":{"key":"b","#.to_vec();
    assert!(matches!(KvStore::open(&log), Err(KvsError::BadFormat)));
}

#[test]
fn read_value_rejects_tombstone_and_other_key() {
    let rm = br#"{"Rm":{"key":"a"}}"#;
    assert!(matches!(KvStore::read_value("a", rm), Err(KvsError::BadFormat)));
    let set = br#"{"Set":{"key":"a","value":"1"}}"#;
    assert!(matches!(KvStore::read_value("b", set), Err(KvsError::BadFormat)));
    assert_eq!(KvStore::read_value("a", set).unwrap(), "1");
}

#[test]
fn read_value_rejects_trailing_bytes() {
    let rec = br#"{"Set":{"key":"a","value":"1"}} "#;
    assert!(matches!(KvStore::read_value("a", rec), Err(KvsError::BadFormat)));
}

#[test]
fn read_value_rejects_invalid_utf8() {
    let rec = kvs::codec::encode_put(b"k", &[0x66, 0xff, 0x66]);
    assert!(matches!(KvStore::read_value("k", &rec), Err(KvsError::BadUtf8)));
}

#[test]
fn unicode_and_escapes_round_trip() {
    let mut disk = Disk::empty();
    let key = "ключ \"q\"";
    let value = "line1\nline2\t\\ \u{1} 東京";
    disk.set(key, value);
    let disk = disk.reopen();
    assert_eq!(disk.get(key).unwrap(), Some(value.to_owned()));
}

#[test]
fn has_room_for_ordinary_records() {
    let store = KvStore::new();
    assert!(store.has_room("key", "value"));
}

#[test]
fn get_through_whole_log() {
    let mut disk = Disk::empty();
    disk.set("a", "1");
    disk.set("b", "2");
    disk.set("a", "3");
    assert_eq!(disk.store.get("a".to_owned(), &disk.log).unwrap(), Some("3".to_owned()));
    assert_eq!(disk.store.get("b".to_owned(), &disk.log).unwrap(), Some("2".to_owned()));
    assert_eq!(disk.store.get("c".to_owned(), &disk.log).unwrap(), None);
}

#[test]
fn get_through_short_log_is_bad_format() {
    let mut disk = Disk::empty();
    disk.set("a", "1");
    assert!(matches!(disk.store.get("a".to_owned(), &disk.log[..10]), Err(KvsError::BadFormat)));
}

#[test]
fn removes_that_pass_threshold_compact() {
    let mut disk = Disk::empty();
    let big = "x".repeat(600 * 1024);
    disk.set("a", &big);
    disk.set("b", &big);
    disk.set("c", "1");
    let before = disk.store.dead_bytes();
    assert_eq!(before, 0);
    let (rec, first) = disk.store.remove("a".to_owned()).unwrap();
    disk.log.extend_from_slice(&rec);
    assert!(first.is_none());
    let (rec, second) = disk.store.remove("b".to_owned()).unwrap();
    disk.log.extend_from_slice(&rec);
    let plan = second.expect("compaction");
    assert_eq!(plan.len(), 1);
    disk.copy(plan);
    assert_eq!(disk.store.dead_bytes(), 0);
    assert_eq!(disk.log, br#"{"Set":{"key":"c","value":"1"}}"#.to_vec());
    assert_eq!(disk.get("c").unwrap(), Some("1".to_owned()));
    assert_eq!(disk.get("a").unwrap(), None);
}

#[test]
fn set_after_open_above_threshold_compacts() {
    let mut log = Vec::new();
    let big = "y".repeat(1100 * 1024);
    let mut store = KvStore::new();
    let (rec, none) = store.set("k".to_owned(), big.clone());
    assert!(none.is_none());
    log.extend_from_slice(&rec);
    log.extend_from_slice(br#"{"Rm":{"key":"k"}}"#);
    let mut disk = Disk::open(log).unwrap();
    assert!(disk.store.needs_compaction());
    disk.set("z", "1");
    assert_eq!(disk.store.dead_bytes(), 0);
    assert_eq!(disk.log, br#"{"Set":{"key":"z","value":"1"}}"#.to_vec());
}
