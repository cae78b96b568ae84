use probable_fiesta::storage::codec::{delete_record, write_record};
use probable_fiesta::storage::lsm::{Lookup, LsmTree, SegmentFile};

/// A database driven as the application drives it, with its files held in memory.
struct Db {
    lsm: LsmTree,
    log: String,
    segments: Vec<SegmentFile>,
}

impl Db {
    fn fresh(name: &str) -> Db {
        Db { lsm: LsmTree::new_delete_existing(name), log: String::new(), segments: Vec::new() }
    }

    fn with_max(name: &str, max: usize) -> Db {
        Db { lsm: LsmTree::with_max_tree_size(name, max), log: String::new(), segments: Vec::new() }
    }

    fn reopen(self, name: &str) -> Db {
        let lsm = LsmTree::new(name, Vec::new(), &self.log).expect("log replays");
        Db { lsm, log: self.log, segments: self.segments }
    }

    fn write(&mut self, k: &str, v: &str) -> bool {
        if let Some(seg) = self.lsm.flush_if_full() {
            self.segments.push(seg);
        }
        self.log.push_str(&write_record(k, v));
        self.lsm.write(k, v, true)
    }

    fn delete(&mut self, k: &str) -> bool {
        if let Some(seg) = self.lsm.flush_if_full() {
            self.segments.push(seg);
        }
        self.log.push_str(&delete_record(k));
        self.lsm.delete(k, true)
    }

    fn get(&self, k: &str) -> Option<String> {
        match self.lsm.get(k) {
            Lookup::Found(v) => Some(v),
            Lookup::NotFound => None,
            Lookup::Unloaded(i) => panic!("segment {} not read", i),
        }
    }

    fn num_entries(&self) -> usize {
        self.lsm.num_entries()
    }

    fn total_segments(&self) -> usize {
        self.lsm.total_segments()
    }
}

fn verify_key_value(db: &Db, k: &str, v: &str) {
    if let Some(value) = db.get(k) {
        assert!(v == value, "invalid key, expected {}, actually {}", v, value);
    } else {
        panic!("No value found for key {}", k);
    }
}

#[test]
pub fn test_lsm_basic() {
    let dbname = "test_lsm_basic";
    let mut lsm = Db::fresh(dbname);
    let (k, v) = ("foo", "bar");

    let result = lsm.write(k, v);

    assert!(result, "Failed to write <foo, bar> to lsm");

    if let Some(value) = lsm.get(k) {
        assert!(value == v, "Expected {} for value of {}, actually {}", v, k, value);
    } else {
        panic!("Failed to get key value pair for key foo");
    }
}

#[test]
pub fn lsm_test_test_lsm_basic() {
    let dbname = "test_lsm_basic";
    let mut lsm = Db::fresh(dbname);

    let result = lsm.write("foo", "bar");

    assert!(result, "Failed to write <foo, bar> to lsm");

    if let Some(value) = lsm.get("foo") {
        assert!(value == "bar", "Expected bar for value of foo, actually {}", value);
    } else {
        panic!("Failed to get key value pair for key foo");
    }
}

#[test]
pub fn test_lsm_create_delete_existing() {
    let dbname = "test_lsm_create_and_delete";
    let mut lsm = Db::fresh(dbname);
    let (k, v) = ("foo", "bar");

    let result = lsm.write(k, v);

    assert!(result, "Failed to write <foo, bar> to lsm");

    if let Some(value) = lsm.get(k) {
        assert!(value == v, "Expected {} for value of {}, actually {}", v, k, value);
    } else {
        panic!("Failed to get key value pair for key foo");
    }

    let lsm_new_delete_existing = Db::fresh(dbname);

    if let Some(_) = lsm_new_delete_existing.get("foo") {
        panic!("Failed to delete existing DB, found value for foo on new DB");
    }
}

#[test]
pub fn test_lsm_overwrite_value() {
    let dbname = "test_lsm_overwrite_value";
    let mut lsm = Db::fresh(dbname);
    let (k, v) = ("foo", "bar");

    let result = lsm.write(k, v);
    if result {
        verify_key_value(&lsm, k, v);
    }

    let v = "bar2";

    let result = lsm.write(k, v);
    if result {
        verify_key_value(&lsm, k, v);
    }
}

#[test]
pub fn lsm_test_test_lsm_overwrite_value() {
    let dbname = "test_lsm_overwrite_value";
    let mut lsm = Db::fresh(dbname);
    let (k, v) = ("foo", "bar");

    let result = lsm.write(k, v);
    if result {
        if let Some(value) = lsm.get("foo") {
            assert!(v == value, "invalid key, expected {}, actually {}", v, value);
        }
    }

    let v = "bar2";

    let result = lsm.write(k, v);
    if result {
        if let Some(value) = lsm.get("foo") {
            assert!(v == value, "invalid key, expected {}, actually {}", v, value);
        }
    }
}

#[test]
pub fn test_lsm_from_log() {
    let mut lsm = Db::fresh("test_lsm_from_log");
    let (k, v) = ("foo", "bar");

    let result = lsm.write(k, v);
    if result {
        if let Some(value) = lsm.get("foo") {
            assert!(v == value, "invalid key, expected {}, actually {}", v, value);
        }
    }

    let v = "bar2";
    let lsm = lsm.reopen("test_lsm_from_log");
    let mut lsm = lsm;
    let result = lsm.write(k, v);
    if result {
        if let Some(value) = lsm.get("foo") {
            assert!(v == value, "invalid key, expected {}, actually {}", v, value);
        }
    }
}

#[test]
pub fn test_lsm_restore_from_log() {
    let mut lsm = Db::fresh("test_lsm_restore_from_log");

    for i in 0..lsm.num_entries() {
        let (k, v) = (format!("foo{}", i), format!("bar{}", i));
        lsm.write(&k, &v);
    }

    let mut lsm = lsm.reopen("test_lsm_restore_from_log");

    for i in 0..lsm.num_entries() {
        let (k, v) = (format!("foo{}", i), format!("bar{}", i));
        lsm.write(&k, &v);
        verify_key_value(&lsm, &k, &v);
    }
}

#[test]
pub fn test_lsm_get_tuples_from_old_segments() {
    let mut lsm = Db::fresh("test_lsm_get_tuples_from_old_segments");
    let mut i = 0;

    while lsm.total_segments() == 0 {
        let (k, v) = (format!("foo{}", i), format!("bar{}", i));
        lsm.write(&k, &v);
        verify_key_value(&lsm, &k, &v);
        i += 1;
    }

    let ex_segments = 1;
    let ex_tree_size = 1;
    assert!(lsm.total_segments() == ex_segments, "expected {} disk segments, actually {}", ex_segments, lsm.total_segments());
    assert!(lsm.num_entries() == ex_tree_size, "expected {} entries in tree, actually {}", ex_tree_size, lsm.num_entries());

    for j in 0..i {
        let (k, v) = (format!("foo{}", j), format!("bar{}", j));
        verify_key_value(&lsm, &k, &v);
    }
}

#[test]
pub fn test_lsm_verify_reclaim_old_segments() {
    let mut lsm = Db::fresh("test_lsm_verify_reclaim_old_segments");
    let mut i = 0;

    while lsm.total_segments() == 0 {
        let (k, v) = (format!("foo{}", i), format!("bar{}", i));
        lsm.write(&k, &v);
        verify_key_value(&lsm, &k, &v);
        i += 1;
    }

    let (k, v) = (format!("foo{}", i), format!("bar{}", i));
    lsm.write(&k, &v);
    verify_key_value(&lsm, &k, &v);

    let mut i = 0;

    while lsm.total_segments() == 1 {
        let (k, v) = (format!("foo{}", i), format!("zar{}", i));
        lsm.write(&k, &v);
        verify_key_value(&lsm, &k, &v);
        i += 1;
    }

    let (k, v) = (format!("foo{}", i), format!("zar{}", i));
    lsm.write(&k, &v);
    verify_key_value(&lsm, &k, &v);

    let ex_segments = 2;
    let ex_tree_size = 2;
    assert!(lsm.total_segments() == ex_segments, "expected {} disk segments, actually {}", ex_segments, lsm.total_segments());
    assert!(lsm.num_entries() == ex_tree_size, "expected {} entries in tree, actually {}", ex_tree_size, lsm.num_entries());

    for j in 0..i {
        let (k, v) = (format!("foo{}", j), format!("zar{}", j));
        verify_key_value(&lsm, &k, &v);
    }
}

#[test]
fn scenario_write_overwrite_delete() {
    let mut db = Db::fresh("t1");
    assert!(db.write("foo", "bar"));
    assert_eq!(db.get("foo"), Some("bar".to_string()));
    assert!(db.write("foo", "bar2"));
    assert_eq!(db.get("foo"), Some("bar2".to_string()));
    assert!(db.delete("foo"));
    assert_eq!(db.get("foo"), None);
}

#[test]
fn scenario_flush_at_threshold() {
    let mut db = Db::with_max("t2", 2);
    assert!(db.write("a", "1"));
    assert!(db.write("b", "2"));
    assert_eq!(db.total_segments(), 0);
    assert!(db.write("c", "3"));
    assert_eq!(db.total_segments(), 1);
    assert_eq!(db.num_entries(), 1);
    assert_eq!(db.get("a"), Some("1".to_string()));
    assert_eq!(db.get("b"), Some("2".to_string()));
    assert_eq!(db.get("c"), Some("3".to_string()));
    assert_eq!(db.segments.len(), 1);
    assert_eq!(db.segments[0].path, "t2/segment_0.log");
    assert_eq!(db.segments[0].contents, "a 1\nb 2\n");
}

#[test]
fn last_write_wins_across_flushes() {
    let mut db = Db::with_max("t3", 3);
    for round in 0..4 {
        for k in 0..5 {
            assert!(db.write(&format!("k{}", k), &format!("v{}_{}", k, round)));
        }
    }
    assert!(db.total_segments() >= 2);
    for k in 0..5 {
        assert_eq!(db.get(&format!("k{}", k)), Some(format!("v{}_3", k)));
    }
    assert_eq!(db.get("k9"), None);
}

#[test]
fn tombstone_shadows_flushed_value() {
    let mut db = Db::with_max("t4", 1);
    assert!(db.write("k", "old"));
    assert!(db.write("x", "1"));
    assert_eq!(db.total_segments(), 1);
    assert!(db.delete("k"));
    assert_eq!(db.get("k"), None);
    assert!(db.write("y", "2"));
    assert_eq!(db.get("k"), None);
}

#[test]
fn active_index_shadows_segments() {
    let mut db = Db::with_max("t5", 2);
    assert!(db.write("a", "1"));
    assert!(db.write("b", "2"));
    assert!(db.write("a", "new"));
    assert_eq!(db.total_segments(), 1);
    assert_eq!(db.get("a"), Some("new".to_string()));
    assert_eq!(db.get("b"), Some("2".to_string()));
}

#[test]
fn restore_reproduces_lookups() {
    let mut db = Db::with_max("t6", 2);
    for i in 0..7 {
        assert!(db.write(&format!("k{}", i), &format!("v{}", i)));
    }
    assert!(db.delete("k3"));
    let before: Vec<Option<String>> = (0..7).map(|i| db.get(&format!("k{}", i))).collect();
    let db = db.reopen("t6");
    let after: Vec<Option<String>> = (0..7).map(|i| db.get(&format!("k{}", i))).collect();
    assert_eq!(before, after);
    assert_eq!(after[3], None);
    assert_eq!(after[6], Some("v6".to_string()));
}

#[test]
fn newest_segment_wins() {
    let mut db = Db::with_max("t7", 2);
    assert!(db.write("k", "first"));
    assert!(db.write("a", "1"));
    assert!(db.write("k", "second"));
    assert!(db.write("b", "2"));
    assert!(db.write("c", "3"));
    assert_eq!(db.total_segments(), 2);
    assert_eq!(db.get("k"), Some("second".to_string()));
}

#[test]
fn unread_segments_are_reported_then_read() {
    let mut db = Db::with_max("t8", 2);
    assert!(db.write("a", "1"));
    assert!(db.write("b", "2"));
    assert!(db.write("c", "3"));
    let seg = db.segments[0].path.clone();
    let contents = db.segments[0].contents.clone();
    let mut lsm = LsmTree::new("t8", vec![seg.clone(), "t8/t8.log".to_string()], "c 3\n").unwrap();
    assert_eq!(lsm.total_segments(), 1);
    assert!(matches!(lsm.get("c"), Lookup::Found(v) if v == "3"));
    assert!(matches!(lsm.get("a"), Lookup::Unloaded(0)));
    assert!(lsm.open_segment(0, &contents));
    assert!(matches!(lsm.get("a"), Lookup::Found(v) if v == "1"));
    assert!(matches!(lsm.get("z"), Lookup::NotFound));
}

#[test]
fn corrupt_log_refuses_open() {
    assert!(LsmTree::new("t9", Vec::new(), "a 1\n\n").is_none());
    let mut lsm = LsmTree::new("t9", vec!["t9/segment_0.log".to_string()], "").unwrap();
    assert!(!lsm.open_segment(0, "a b c\n"));
    assert!(matches!(lsm.get("a"), Lookup::Unloaded(0)));
}

#[test]
fn failed_log_append_changes_nothing() {
    let mut lsm = LsmTree::new_delete_existing("t10");
    assert!(!lsm.write("k", "v", false));
    assert!(matches!(lsm.get("k"), Lookup::NotFound));
    assert!(lsm.write("k", "v", true));
    assert!(!lsm.delete("k", false));
    assert!(matches!(lsm.get("k"), Lookup::Found(v) if v == "v"));
    assert_eq!(lsm.max_entries(), 100);
}

#[test]
fn flush_after_segment_ids_continue() {
    let mut lsm = LsmTree::new("t11", vec!["t11/segment_4.log".to_string()], "a 1\n").unwrap();
    let seg = lsm.flush_if_full();
    assert!(seg.is_none());
    let mut small = LsmTree::with_max_tree_size("t11", 1);
    small.write("a", "1", true);
    let seg = small.flush_if_full().unwrap();
    assert_eq!(seg.path, "t11/segment_0.log");
    small.write("b", "2", true);
    let seg = small.flush_if_full().unwrap();
    assert_eq!(seg.path, "t11/segment_1.log");
    assert_eq!(seg.contents, "b 2\n");
    assert!(lsm.write("b", "2", true));
}
