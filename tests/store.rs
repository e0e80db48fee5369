use battery_plot::{sort_hashmap, BatteryHistoryRecord, ChargeState, PlotError, RecordStore};

fn rec(date_time: i64, capacity: i32, state: ChargeState) -> BatteryHistoryRecord {
    BatteryHistoryRecord { date_time, capacity, state }
}

#[test]
fn empty_store_has_no_latest_timestamp() {
    let store = RecordStore::new();
    assert!(store.is_empty());
    assert_eq!(store.len(), 0);
    assert_eq!(store.max_timestamp(), Err(PlotError::EmptyStore));
    assert!(store.ordered_samples().is_empty());
}

#[test]
fn insert_keeps_ascending_order() {
    let mut store = RecordStore::new();
    store.insert(rec(300, 30, ChargeState::Charging));
    store.insert(rec(100, 10, ChargeState::Discharging));
    store.insert(rec(200, 20, ChargeState::Unknown));
    let samples = store.ordered_samples();
    let times: Vec<i64> = samples.iter().map(|r| r.date_time).collect();
    assert_eq!(times, vec![100, 200, 300]);
    assert_eq!(store.len(), 3);
    assert_eq!(store.max_timestamp(), Ok(300));
}

#[test]
fn later_insert_replaces_same_timestamp() {
    let mut store = RecordStore::new();
    store.insert(rec(100, 10, ChargeState::Charging));
    store.insert(rec(100, 42, ChargeState::Discharging));
    assert_eq!(store.len(), 1);
    assert_eq!(store.get(100), Some(rec(100, 42, ChargeState::Discharging)));
    assert_eq!(store.get(101), None);
}

#[test]
fn from_records_last_write_wins() {
    let records = vec![
        rec(5, 1, ChargeState::Unknown),
        rec(1, 2, ChargeState::Unknown),
        rec(5, 3, ChargeState::Charging),
    ];
    let store = RecordStore::from_records(&records);
    assert_eq!(
        store.ordered_samples(),
        vec![rec(1, 2, ChargeState::Unknown), rec(5, 3, ChargeState::Charging)]
    );
}

#[test]
fn merged_prefers_other_store() {
    let a = RecordStore::from_records(&vec![rec(1, 10, ChargeState::Unknown), rec(2, 20, ChargeState::Unknown)]);
    let b = RecordStore::from_records(&vec![rec(2, 99, ChargeState::Charging), rec(3, 30, ChargeState::Unknown)]);
    let m = a.merged(&b);
    assert_eq!(
        m.ordered_samples(),
        vec![
            rec(1, 10, ChargeState::Unknown),
            rec(2, 99, ChargeState::Charging),
            rec(3, 30, ChargeState::Unknown)
        ]
    );
}

#[test]
fn sort_hashmap_fills_parallel_vectors() {
    let store = RecordStore::from_records(&vec![
        rec(30, 3, ChargeState::Unknown),
        rec(10, 1, ChargeState::Unknown),
        rec(20, 2, ChargeState::Unknown),
    ]);
    let mut xs = Vec::new();
    let mut ys = Vec::new();
    sort_hashmap(&store, &mut xs, &mut ys);
    assert_eq!(xs, vec![10, 20, 30]);
    assert_eq!(ys, vec![1, 2, 3]);
}

#[test]
fn ordered_points_drop_state() {
    let store = RecordStore::from_records(&vec![rec(7, 70, ChargeState::Charging)]);
    let points = store.ordered_points();
    assert_eq!(points.len(), 1);
    assert_eq!(points[0].date_time, 7);
    assert_eq!(points[0].capacity, 70);
}
