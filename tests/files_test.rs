use probable_fiesta::storage::diskseg::{extract_seg_id, reclaim_segments, DiskSegment};
use probable_fiesta::storage::files::{get_seg_path_s, get_wal_path};

#[test]
fn segment_paths() {
    assert_eq!(get_seg_path_s("db", 0), "db/segment_0.log");
    assert_eq!(get_seg_path_s("db", 12), "db/segment_12.log");
    assert_eq!(get_wal_path("db"), "db/db.log");
}

#[test]
fn segment_ids() {
    assert_eq!(extract_seg_id("db/segment_12.log".to_string()), Some(12));
    assert_eq!(extract_seg_id("/a/b/segment_007.log".to_string()), Some(7));
    assert_eq!(extract_seg_id(get_seg_path_s("x", 345)), Some(345));
    assert_eq!(extract_seg_id("db/db.log".to_string()), None);
    assert_eq!(extract_seg_id("db/segment_.log".to_string()), None);
    assert_eq!(extract_seg_id("db/segment_1a.log".to_string()), None);
    assert_eq!(extract_seg_id("db/segment_1.data".to_string()), None);
    assert_eq!(extract_seg_id("segment_99999999999999999999999.log".to_string()), None);
}

#[test]
fn reclaim_orders_newest_first() {
    let files = vec![
        "db/segment_2.log".to_string(),
        "db/db.log".to_string(),
        "db/segment_10.log".to_string(),
        "db/segment_0.log".to_string(),
        "db/segment_9.log".to_string(),
        "db/segment_10.log".to_string(),
    ];
    let segs = reclaim_segments(files);
    let paths: Vec<&str> = segs.iter().map(|s| s.value()).collect();
    assert_eq!(paths, vec!["db/segment_10.log", "db/segment_9.log", "db/segment_2.log", "db/segment_0.log"]);
    assert!(segs.iter().all(|s| matches!(s, DiskSegment::ClosedSegment { .. })));
}

#[test]
fn segments_compare_newest_first() {
    let a = DiskSegment::ClosedSegment { path_s: "db/segment_3.log".to_string() };
    let b = DiskSegment::ClosedSegment { path_s: "other/segment_3.log".to_string() };
    let c = DiskSegment::ClosedSegment { path_s: "db/segment_7.log".to_string() };
    let d = DiskSegment::ClosedSegment { path_s: "db/db.log".to_string() };
    assert!(a == b);
    assert!(a != c);
    assert_eq!(c.partial_cmp(&a), Some(std::cmp::Ordering::Less));
    assert_eq!(a.partial_cmp(&c), Some(std::cmp::Ordering::Greater));
    assert_eq!(a.partial_cmp(&b), Some(std::cmp::Ordering::Equal));
    assert_eq!(a.partial_cmp(&d), None);
}
