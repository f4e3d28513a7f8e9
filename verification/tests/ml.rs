use mlserver::err::TribblerError;
use mlserver::ml::{point_index, EmptyRequest, MLStorage, ModelPull, HIDDEN};

fn pull(s: &mut MLStorage, name: &str, clock: u64) -> Result<(), TribblerError> {
    s.pull(&ModelPull { name: name.to_string(), clock })
}

#[test]
fn new_storage_is_ready_at_clock_zero() {
    let mut s = MLStorage::new();
    assert!(s.get_ready(EmptyRequest { empty: false }).empty);
    assert!(!s.has_queue(&"model1".to_string()));
    assert_eq!(s.clock(0), 0);
}

#[test]
fn ready_flag_reads_back() {
    let mut s = MLStorage::new();
    assert!(s.set_ready(EmptyRequest { empty: false }).empty);
    assert!(!s.get_ready(EmptyRequest { empty: true }).empty);
    assert!(s.set_ready(EmptyRequest { empty: true }).empty);
    assert!(s.get_ready(EmptyRequest { empty: false }).empty);
}

#[test]
fn clock_counts_up_from_at_least() {
    let mut s = MLStorage::new();
    assert_eq!(s.clock(0), 0);
    assert_eq!(s.clock(0), 1);
    assert_eq!(s.clock(10), 10);
    assert_eq!(s.clock(5), 11);
    assert_eq!(s.clock(12), 12);
}

#[test]
fn clock_stays_at_max() {
    let mut s = MLStorage::new();
    assert_eq!(s.clock(u64::MAX), u64::MAX);
    assert_eq!(s.clock(0), u64::MAX);
    assert_eq!(s.clock(3), u64::MAX);
}

#[test]
fn first_pulls_are_accepted() {
    let mut s = MLStorage::new();
    assert!(pull(&mut s, "model1", 1).is_ok());
    assert!(s.has_queue(&"model1".to_string()));
    assert!(pull(&mut s, "model1", 2).is_ok());
}

#[test]
fn pull_waits_for_outstanding_update() {
    let mut s = MLStorage::new();
    assert!(pull(&mut s, "model1", 1).is_ok());
    assert!(pull(&mut s, "model1", 2).is_ok());
    match pull(&mut s, "model1", 3) {
        Err(TribblerError::RpcError(m)) => assert_eq!(m, "Other worker not finished updating"),
        _ => panic!("the pull should wait"),
    }
    assert!(pull(&mut s, "model2", 3).is_ok());
}

#[test]
fn push_releases_the_model() {
    let mut s = MLStorage::new();
    assert!(pull(&mut s, "model1", 1).is_ok());
    assert!(pull(&mut s, "model1", 2).is_ok());
    assert!(pull(&mut s, "model1", 3).is_err());
    assert!(s.push(&"model1".to_string(), 2).ok().unwrap());
    assert!(pull(&mut s, "model1", 3).is_ok());
    assert!(pull(&mut s, "model1", 4).is_err());
}

#[test]
fn push_of_unknown_clock_fails() {
    let mut s = MLStorage::new();
    assert!(pull(&mut s, "model1", 1).is_ok());
    match s.push(&"model1".to_string(), 7) {
        Err(TribblerError::RpcError(m)) => assert_eq!(m, "Error"),
        _ => panic!("the push should fail"),
    }
}

#[test]
fn push_of_older_pull_does_not_release() {
    let mut s = MLStorage::new();
    assert!(pull(&mut s, "model1", 1).is_ok());
    assert!(pull(&mut s, "model1", 2).is_ok());
    assert!(s.push(&"model1".to_string(), 1).ok().unwrap());
    assert!(pull(&mut s, "model1", 3).is_err());
}

#[test]
fn weight_positions() {
    let s = MLStorage::new();
    assert_eq!(s.pt(0, 0, 0), 0);
    assert_eq!(s.pt(0, 19, 0), 19);
    assert_eq!(s.pt(1, 0, 0), 20);
    assert_eq!(s.pt(1, 0, 19), 39);
    assert_eq!(point_index(5, 1, 0, 3), 8);
    assert_eq!(point_index(5, 0, 4, 0), 4);
    assert_eq!(HIDDEN, 20);
}

#[test]
fn push_points_cover_both_layers() {
    let s = MLStorage::new();
    assert_eq!(s.push_points(6), vec![20, 0, 21, 1, 22, 2]);
    assert_eq!(s.push_points(7), vec![20, 0, 21, 1, 22, 2]);
    assert_eq!(s.push_points(1), Vec::<usize>::new());
    let all = s.push_points(40);
    assert_eq!(all.len(), 40);
    let mut sorted = all.clone();
    sorted.sort();
    assert_eq!(sorted, (0..40).collect::<Vec<usize>>());
}
