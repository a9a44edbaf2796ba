use tsdb::datapoint::Datapoint;
use tsdb::db::Database;
use tsdb::DbError;

fn point(metric: &str, value: f64, time: u64) -> Datapoint {
    Datapoint {
        metric: metric.to_owned(),
        value: value.to_bits(),
        time,
        tags: vec![],
    }
}

#[test]
fn overwrite_keeps_one_point() {
    // metric "cpu", no tags, value 42.0 at t=100 (bucket 60, offset 40),
    // overwritten by 43.0 at the same instant.
    let mut db = Database::new();
    db.put_datapoint(point("cpu", 42.0, 100)).unwrap();
    db.put_datapoint(point("cpu", 43.0, 100)).unwrap();
    let pts = db.get_datapoints_in_bucket("cpu", &vec![], 100).unwrap();
    assert_eq!(pts.len(), 1);
    assert_eq!(pts[0].time, 100);
    assert_eq!(f64::from_bits(pts[0].value), 43.0);
    assert_eq!(pts[0].metric, "cpu");
}

#[test]
fn range_spans_buckets() {
    // t=65 (bucket 60, offset 5) and t=125 (bucket 120, offset 5): a range
    // read over [60, 130] returns both, ascending.
    let mut db = Database::new();
    db.put_datapoint(point("cpu", 1.0, 65)).unwrap();
    db.put_datapoint(point("cpu", 2.0, 125)).unwrap();
    let pts = db.get_datapoints_exact("cpu", &vec![], 60, 130).unwrap();
    assert_eq!(pts.len(), 2);
    assert_eq!(pts[0].time, 65);
    assert_eq!(f64::from_bits(pts[0].value), 1.0);
    assert_eq!(pts[1].time, 125);
    assert_eq!(f64::from_bits(pts[1].value), 2.0);
}

#[test]
fn resolve_without_creating() {
    let mut db = Database::new();
    assert_eq!(db.get_id("cpu#"), Ok(None));
    db.put_datapoint(point("cpu", 1.5, 7)).unwrap();
    assert_eq!(db.get_id("cpu#"), Ok(Some(1)));
    // a read never allocates
    assert_eq!(db.get_id("mem#"), Ok(None));
    let pts = db.get_datapoints_in_bucket("mem", &vec![], 7).unwrap();
    assert_eq!(pts.len(), 0);
    assert_eq!(db.get_id("mem#"), Ok(None));
}

#[test]
fn registry_ids_increase() {
    let mut db = Database::new();
    let a = db.get_id_or_register("a#").unwrap();
    let a_again = db.get_id_or_register("a#").unwrap();
    let b = db.get_id_or_register("b#").unwrap();
    let c = db.get_id_or_register("c#").unwrap();
    assert_eq!(a, 1);
    assert_eq!(a_again, 1);
    assert_eq!(b, 2);
    assert_eq!(c, 3);
    assert_eq!(db.get_max_metric_id(), Ok(3));
}

#[test]
fn bucket_boundaries_isolate() {
    // second 59 of minute 2 and second 0 of minute 3
    let mut db = Database::new();
    db.put_datapoint(point("cpu", 59.0, 179)).unwrap();
    db.put_datapoint(point("cpu", 60.0, 180)).unwrap();
    let first = db.get_datapoints_in_bucket("cpu", &vec![], 179).unwrap();
    assert_eq!(first.len(), 1);
    assert_eq!(first[0].time, 179);
    assert_eq!(f64::from_bits(first[0].value), 59.0);
    let second = db.get_datapoints_in_bucket("cpu", &vec![], 180).unwrap();
    assert_eq!(second.len(), 1);
    assert_eq!(second[0].time, 180);
    assert_eq!(f64::from_bits(second[0].value), 60.0);
    // the two buckets sit under distinct store keys
    assert_ne!(db.get("120##1").unwrap(), Vec::<u8>::new());
    assert_ne!(db.get("180##1").unwrap(), Vec::<u8>::new());
}

#[test]
fn range_filters_and_orders() {
    let mut db = Database::new();
    // inserted out of order, all within [60, 250]
    db.put_datapoint(point("cpu", 3.0, 200)).unwrap();
    db.put_datapoint(point("cpu", 1.0, 65)).unwrap();
    db.put_datapoint(point("cpu", 2.0, 119)).unwrap();
    // outside the requested range
    db.put_datapoint(point("cpu", 9.0, 30)).unwrap();
    let pts = db.get_datapoints_exact("cpu", &vec![], 60, 250).unwrap();
    let times: Vec<u64> = pts.iter().map(|p| p.time).collect();
    assert_eq!(times, vec![65, 119, 200]);
    // empty interval
    let none = db.get_datapoints_exact("cpu", &vec![], 250, 60).unwrap();
    assert_eq!(none.len(), 0);
}

#[test]
fn tags_build_one_series_key() {
    let mut a = Datapoint::default();
    a.metric = "metric".to_owned();
    a.add_tag("test".to_owned(), "bla".to_owned());
    a.add_tag("xxx".to_owned(), "yyy".to_owned());
    let mut b = Datapoint::default();
    b.metric = "metric".to_owned();
    b.add_tag("xxx".to_owned(), "yyy".to_owned());
    b.add_tag("test".to_owned(), "bla".to_owned());
    assert_eq!(a.to_key_string(), "metric#test:bla,xxx:yyy");
    assert_eq!(a.to_key_string(), b.to_key_string());
    // replacing a tag value keeps one entry
    b.add_tag("test".to_owned(), "zzz".to_owned());
    assert_eq!(b.to_key_string(), "metric#test:zzz,xxx:yyy");
}

#[test]
fn corrupt_id_cell_is_reported() {
    let mut db = Database::new();
    db.put("cpu#", &[1, 2, 3]).unwrap();
    assert_eq!(db.get_id("cpu#"), Err(DbError::CorruptData));
    assert_eq!(
        db.get_datapoints_in_bucket("cpu", &vec![], 0),
        Err(DbError::CorruptData)
    );
}

#[test]
fn corrupt_blob_is_reported() {
    let mut db = Database::new();
    db.put_datapoint(point("cpu", 1.0, 100)).unwrap();
    // clobber the bucket blob with a length that cannot match any bitmap
    db.put("60##1", &[255, 0, 0, 0, 0, 0, 0, 0, 7]).unwrap();
    assert_eq!(
        db.get_datapoints_in_bucket("cpu", &vec![], 100),
        Err(DbError::CorruptData)
    );
    assert_eq!(
        db.get_datapoints_exact("cpu", &vec![], 60, 120),
        Err(DbError::CorruptData)
    );
}

#[test]
fn timestamps_near_the_end_of_time() {
    let db = Database::new();
    assert_eq!(
        db.get_datapoints_in_bucket("cpu", &vec![], u64::MAX),
        Err(DbError::InvalidTimestamp)
    );
    let (bucket, offset) = db.select_time_bucket_and_offset(100);
    assert_eq!((bucket, offset), (60, 40));
}
