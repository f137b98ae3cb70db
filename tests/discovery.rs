use zadb::{
    collect_open_ports, exit_code, partition, Connection, Failure, PortRange, Race, Session, Stage,
    DISCOVERY_END, DISCOVERY_START, SCAN_WORKERS,
};

/// Runs one race whose workers report in the order given by `arrival`
/// (indices into `candidates`), each succeeding when `op` says so. Returns
/// the winner and how many workers had reported when it was read.
fn run_race(candidates: Vec<u16>, arrival: Vec<usize>, op: fn(u16) -> bool) -> (Option<u16>, usize) {
    let mut race = Race::new(candidates.clone());
    let mut done = 0usize;
    for &i in &arrival {
        assert!(!race.is_finished());
        race.report(i, op(candidates[i]));
        done += 1;
    }
    assert!(race.is_finished());
    (race.winner(), done)
}

/// Simulates a scan of `range` by `workers` workers against the open set
/// `open`, the workers' reports arriving last worker first.
fn simulate_scan(range: PortRange, workers: u32, open: &[u16]) -> Vec<u16> {
    let chunks = partition(range, workers);
    let mut arrived = vec![];
    for chunk in chunks.iter().rev() {
        for p in (chunk.start..chunk.end).rev() {
            if open.contains(&p) {
                arrived.push(p);
            }
        }
    }
    collect_open_ports(&arrived)
}

fn run_session(open: Vec<u16>, pair_ok: fn(u16) -> bool, connect_ok: fn(u16) -> bool) -> (Session, Option<Vec<u16>>) {
    let mut s = Session::new();
    s.resolved(true);
    s.scanned(open);
    if s.stage() != Stage::RacingPairing {
        return (s, None);
    }
    let pc = s.pairing_candidates();
    let order: Vec<usize> = (0..pc.len()).collect();
    let (w, _) = run_race(pc, order, pair_ok);
    s.paired(w);
    if s.stage() != Stage::Settling {
        return (s, None);
    }
    s.settled();
    let cc = s.connect_candidates();
    let order: Vec<usize> = (0..cc.len()).rev().collect();
    let (w, _) = run_race(cc.clone(), order, connect_ok);
    s.connected(w);
    (s, Some(cc))
}

#[test]
fn range_new_rejects_reversed_bounds() {
    assert_eq!(PortRange::new(10, 5), None);
    let r = PortRange::new(5, 5).unwrap();
    assert_eq!(r.len(), 0);
    assert_eq!(PortRange::new(30000, 50000).unwrap().len(), 20000);
}

#[test]
fn discovery_range_is_fixed() {
    let r = PortRange::discovery();
    assert_eq!((r.start, r.end), (30000, 50000));
    assert_eq!((DISCOVERY_START, DISCOVERY_END), (30000, 50000));
}

#[test]
fn partition_of_discovery_range_gives_hundred_ports_each() {
    let chunks = partition(PortRange::discovery(), SCAN_WORKERS);
    assert_eq!(chunks.len(), 200);
    assert_eq!((chunks[0].start, chunks[0].end), (30000, 30100));
    assert_eq!((chunks[1].start, chunks[1].end), (30100, 30200));
    assert_eq!((chunks[199].start, chunks[199].end), (49900, 50000));
    for c in &chunks {
        assert_eq!(c.end - c.start, 100);
    }
}

#[test]
fn partition_uneven_leaves_last_shorter() {
    let chunks = partition(PortRange::new(0, 10).unwrap(), 3);
    let bounds: Vec<(u16, u16)> = chunks.iter().map(|c| (c.start, c.end)).collect();
    assert_eq!(bounds, vec![(0, 4), (4, 8), (8, 10)]);
}

#[test]
fn partition_with_more_workers_than_ports() {
    let chunks = partition(PortRange::new(7, 9).unwrap(), 4);
    let bounds: Vec<(u16, u16)> = chunks.iter().map(|c| (c.start, c.end)).collect();
    assert_eq!(bounds, vec![(7, 8), (8, 9), (9, 9), (9, 9)]);
}

#[test]
fn partition_of_full_port_space() {
    let chunks = partition(PortRange::new(0, 65535).unwrap(), 1);
    assert_eq!(chunks.len(), 1);
    assert_eq!((chunks[0].start, chunks[0].end), (0, 65535));
}

#[test]
fn collect_sorts_and_dedups() {
    assert_eq!(collect_open_ports(&vec![32000, 31000, 31500, 31000]), vec![31000, 31500, 32000]);
    assert_eq!(collect_open_ports(&vec![65535, 0, 65535]), vec![0, 65535]);
}

#[test]
fn collect_of_nothing_is_empty() {
    assert_eq!(collect_open_ports(&vec![]), Vec::<u16>::new());
}

#[test]
fn scan_returns_open_set_for_any_worker_count() {
    let range = PortRange::new(30000, 30500).unwrap();
    let open = [30499, 30000, 30250, 30101, 30100];
    for workers in [1, 2, 3, 7, 100, 499, 500, 1000] {
        assert_eq!(simulate_scan(range, workers, &open), vec![30000, 30100, 30101, 30250, 30499]);
    }
}

#[test]
fn scan_with_nothing_open_is_empty() {
    let range = PortRange::discovery();
    assert_eq!(simulate_scan(range, 200, &[]), Vec::<u16>::new());
}

#[test]
fn scanning_same_fixture_twice_is_identical() {
    let range = PortRange::discovery();
    let open = [45000, 31000, 49999];
    let a = simulate_scan(range, 200, &open);
    let b = simulate_scan(range, 200, &open);
    assert_eq!(a, b);
    assert_eq!(a, vec![31000, 45000, 49999]);
}

#[test]
fn race_without_success_has_no_winner() {
    let (w, n) = run_race(vec![1, 2, 3], vec![1, 0, 2], |_| false);
    assert_eq!(w, None);
    assert_eq!(n, 3);
}

#[test]
fn race_with_one_success_picks_it() {
    let (w, _) = run_race(vec![10, 20, 30], vec![0, 2, 1], |p| p == 20);
    assert_eq!(w, Some(20));
}

#[test]
fn race_with_several_successes_picks_one_of_them() {
    for order in [vec![1, 3, 0, 2], vec![3, 1, 2, 0], vec![0, 2, 3, 1]] {
        let (w, n) = run_race(vec![10, 20, 30, 40], order, |p| p == 20 || p == 40);
        assert!(w == Some(20) || w == Some(40));
        assert_eq!(n, 4);
    }
}

#[test]
fn race_over_no_candidates() {
    let race = Race::new(vec![]);
    assert!(race.is_finished());
    assert_eq!(race.winner(), None);
}

#[test]
fn race_waits_for_every_worker() {
    let mut race = Race::new(vec![1, 2, 3, 4]);
    race.report(1, true);
    assert!(!race.is_finished());
    race.report(2, false);
    race.report(0, false);
    assert!(!race.is_finished());
    race.report(3, true);
    assert!(race.is_finished());
    assert_eq!(race.winner(), Some(2));
}

#[test]
fn race_first_success_keeps_slot() {
    let mut race = Race::new(vec![7, 8, 9]);
    race.report(2, true);
    assert!(!race.is_finished());
    race.report(0, true);
    race.report(1, false);
    assert!(race.is_finished());
    assert_eq!(race.winner(), Some(9));
}

#[test]
fn scenario_pairing_and_service_found() {
    let (s, cc) = run_session(vec![31000, 31500, 32000], |p| p == 31500, |p| p == 32000);
    assert_eq!(cc, Some(vec![31000, 32000]));
    let out = s.outcome().unwrap();
    assert_eq!(out, Ok(Connection { pairing_port: 31500, service_port: 32000 }));
    assert_eq!(exit_code(&out), 0);
}

#[test]
fn scenario_no_open_ports() {
    let (s, _) = run_session(vec![], |_| true, |_| true);
    let out = s.outcome().unwrap();
    assert_eq!(out, Err(Failure::NoOpenPorts));
    assert_eq!(exit_code(&out), 1);
}

#[test]
fn scenario_single_open_port() {
    let (s, _) = run_session(vec![40000], |_| true, |_| true);
    assert_eq!(s.outcome(), Some(Err(Failure::InsufficientPorts)));
}

#[test]
fn scenario_pairing_succeeds_on_both_ports() {
    let (s, cc) = run_session(vec![40000, 40100], |_| true, |_| true);
    let out = s.outcome().unwrap().unwrap();
    let cc = cc.unwrap();
    assert!(out.pairing_port == 40000 || out.pairing_port == 40100);
    let other = if out.pairing_port == 40000 { 40100 } else { 40000 };
    assert_eq!(cc, vec![other]);
    assert_eq!(out.service_port, other);
}

#[test]
fn scenario_pairing_fails_everywhere() {
    let (s, _) = run_session(vec![31000, 32000], |_| false, |_| true);
    let out = s.outcome().unwrap();
    assert_eq!(out, Err(Failure::PairingFailed));
    assert_eq!(exit_code(&out), 1);
}

#[test]
fn scenario_connect_fails_everywhere() {
    let (s, cc) = run_session(vec![31000, 31500, 32000], |p| p == 31000, |_| false);
    assert_eq!(cc, Some(vec![31500, 32000]));
    assert_eq!(s.outcome(), Some(Err(Failure::ConnectFailed)));
}

#[test]
fn connect_never_picks_the_pairing_port() {
    let (s, cc) = run_session(vec![31000, 31500], |p| p == 31000, |p| p == 31000);
    assert_eq!(cc, Some(vec![31500]));
    assert_eq!(s.outcome(), Some(Err(Failure::ConnectFailed)));
}

#[test]
fn resolution_failure_ends_session() {
    let mut s = Session::new();
    assert_eq!(s.stage(), Stage::Resolving);
    assert_eq!(s.outcome(), None);
    s.resolved(false);
    assert_eq!(s.stage(), Stage::Failed(Failure::ResolutionError));
    assert_eq!(s.outcome(), Some(Err(Failure::ResolutionError)));
}

#[test]
fn session_stages_in_order() {
    let mut s = Session::new();
    s.resolved(true);
    assert_eq!(s.stage(), Stage::Scanning);
    s.scanned(vec![1, 2, 3]);
    assert_eq!(s.stage(), Stage::RacingPairing);
    assert_eq!(s.pairing_candidates(), vec![1, 2, 3]);
    assert_eq!(s.outcome(), None);
    s.paired(Some(2));
    assert_eq!(s.stage(), Stage::Settling);
    s.settled();
    assert_eq!(s.stage(), Stage::RacingConnect);
    assert_eq!(s.connect_candidates(), vec![1, 3]);
    s.connected(Some(3));
    assert_eq!(s.stage(), Stage::Succeeded);
    assert_eq!(s.outcome(), Some(Ok(Connection { pairing_port: 2, service_port: 3 })));
}
