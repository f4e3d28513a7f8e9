use mlserver::keeper::{
    build_chord_ring, plan_data_migration, vec_equals, ChordBacks, KeeperState, MigrationTask,
    ProbeOutcome, SyncClockResp,
};

fn strings(v: &[&str]) -> Vec<String> {
    v.iter().map(|s| s.to_string()).collect()
}

fn entry(this: &str, pred: &str, succ: &str) -> ChordBacks {
    ChordBacks {
        this_addr: this.to_string(),
        successor: succ.to_string(),
        predecessor: pred.to_string(),
    }
}

#[test]
fn vec_equals_ignores_order() {
    assert!(vec_equals(strings(&["a", "b", "c"]), strings(&["c", "a", "b"])));
}

#[test]
fn vec_equals_needs_same_length() {
    assert!(!vec_equals(strings(&["a", "b"]), strings(&["a", "b", "b"])));
    assert!(!vec_equals(strings(&[]), strings(&["a"])));
}

#[test]
fn vec_equals_detects_different_members() {
    assert!(!vec_equals(strings(&["a", "b"]), strings(&["a", "c"])));
    assert!(!vec_equals(strings(&["a", "c"]), strings(&["a", "b"])));
}

#[test]
fn vec_equals_compares_members_not_counts() {
    assert!(vec_equals(strings(&["a", "a", "b"]), strings(&["a", "b", "b"])));
}

#[test]
fn vec_equals_is_reflexive_and_symmetric() {
    let a = strings(&["x", "y"]);
    let b = strings(&["y", "z"]);
    assert!(vec_equals(a.clone(), a.clone()));
    assert!(vec_equals(strings(&[]), strings(&[])));
    assert_eq!(vec_equals(a.clone(), b.clone()), vec_equals(b, a));
}

#[test]
fn chord_ring_of_three() {
    let ring = build_chord_ring(strings(&["a", "b", "c"])).ok().unwrap();
    assert_eq!(ring, vec![entry("a", "c", "b"), entry("b", "a", "c"), entry("c", "b", "a")]);
}

#[test]
fn chord_ring_of_one_and_two() {
    let ring = build_chord_ring(strings(&["a"])).ok().unwrap();
    assert_eq!(ring, vec![entry("a", "a", "a")]);
    let ring = build_chord_ring(strings(&["a", "b"])).ok().unwrap();
    assert_eq!(ring, vec![entry("a", "b", "b"), entry("b", "a", "a")]);
    assert!(build_chord_ring(Vec::new()).ok().unwrap().is_empty());
}

#[test]
fn chord_ring_links_agree() {
    let ring = build_chord_ring(strings(&["a", "b", "c", "d"])).ok().unwrap();
    for i in 0..ring.len() {
        let next = &ring[(i + 1) % ring.len()];
        assert_eq!(ring[i].successor, next.this_addr);
        assert_eq!(next.predecessor, ring[i].this_addr);
    }
}

fn describe(t: &MigrationTask) -> (String, String, String) {
    match t {
        MigrationTask::RepairFailure { predecessor, successor } => {
            ("repair".to_string(), predecessor.clone(), successor.clone())
        }
        MigrationTask::SeedJoin { this_addr, successor } => {
            ("join".to_string(), this_addr.clone(), successor.clone())
        }
    }
}

#[test]
fn migration_repairs_around_failed_backend() {
    let old = build_chord_ring(strings(&["a", "b", "c"])).ok().unwrap();
    let new = build_chord_ring(strings(&["a", "c"])).ok().unwrap();
    let plan: Vec<_> = plan_data_migration(&old, &new).iter().map(describe).collect();
    assert_eq!(
        plan,
        vec![("repair".to_string(), "http://a".to_string(), "http://c".to_string())]
    );
}

#[test]
fn migration_seeds_joined_backend() {
    let old = build_chord_ring(strings(&["a", "c"])).ok().unwrap();
    let new = build_chord_ring(strings(&["a", "b", "c"])).ok().unwrap();
    let plan: Vec<_> = plan_data_migration(&old, &new).iter().map(describe).collect();
    assert_eq!(plan, vec![("join".to_string(), "http://b".to_string(), "http://c".to_string())]);
}

#[test]
fn migration_repairs_before_seeding() {
    let old = build_chord_ring(strings(&["a", "b", "c"])).ok().unwrap();
    let new = build_chord_ring(strings(&["a", "c", "d"])).ok().unwrap();
    let plan: Vec<_> = plan_data_migration(&old, &new).iter().map(describe).collect();
    assert_eq!(
        plan,
        vec![
            ("repair".to_string(), "http://a".to_string(), "http://c".to_string()),
            ("join".to_string(), "http://d".to_string(), "http://a".to_string()),
        ]
    );
}

#[test]
fn migration_to_single_backend_moves_nothing() {
    let old = build_chord_ring(strings(&["a", "b"])).ok().unwrap();
    let new = build_chord_ring(strings(&["a"])).ok().unwrap();
    assert!(plan_data_migration(&old, &new).is_empty());
}

#[test]
fn migration_without_change_moves_nothing() {
    let old = build_chord_ring(strings(&["a", "b", "c"])).ok().unwrap();
    let new = build_chord_ring(strings(&["c", "b", "a"])).ok().unwrap();
    assert!(plan_data_migration(&old, &new).is_empty());
}

#[test]
fn clock_round_keeps_reached_backends() {
    let mut resp = SyncClockResp::new(5);
    resp.record_probe("a".to_string(), ProbeOutcome::Reached(Some(9)));
    resp.record_probe("b".to_string(), ProbeOutcome::Unreachable);
    resp.record_probe("c".to_string(), ProbeOutcome::Reached(None));
    assert_eq!(resp.largest_clock, 9);
    assert_eq!(resp.alive_backends, strings(&["a", "c"]));
}

#[test]
fn clock_round_without_answers_keeps_clock() {
    let mut resp = SyncClockResp::new(3);
    resp.record_probe("a".to_string(), ProbeOutcome::Unreachable);
    assert_eq!(resp.largest_clock, 3);
    assert!(resp.alive_backends.is_empty());
}

#[test]
fn keeper_migrates_only_on_membership_change() {
    let mut keeper = KeeperState::new();
    assert_eq!(keeper.clock, 0);
    let first = SyncClockResp { largest_clock: 4, alive_backends: strings(&["a", "b"]) };
    let m = keeper.after_sync(first);
    assert_eq!(m, Some((strings(&[]), strings(&["a", "b"]))));
    assert_eq!(keeper.clock, 4);
    let same = SyncClockResp { largest_clock: 6, alive_backends: strings(&["b", "a"]) };
    assert_eq!(keeper.after_sync(same), None);
    assert_eq!(keeper.clock, 6);
    assert_eq!(keeper.alive_last_checked, strings(&["b", "a"]));
    let shrunk = SyncClockResp { largest_clock: 7, alive_backends: strings(&["a"]) };
    assert_eq!(keeper.after_sync(shrunk), Some((strings(&["b", "a"]), strings(&["a"]))));
}
