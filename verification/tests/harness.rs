use kvharness::clock::budget_exceeded;
use kvharness::config::Config;
use kvharness::errors::Error;
use kvharness::ids::{u64_to_decimal, uniqstring, IdSource};

#[test]
fn unique_names_render_in_decimal() {
    let mut ids = IdSource::new();
    let mut last = String::new();
    for _ in 0..12 {
        last = uniqstring(&mut ids);
    }
    assert_eq!(last, "11");
    assert_eq!(u64_to_decimal(0), "0");
    assert_eq!(u64_to_decimal(7), "7");
    assert_eq!(u64_to_decimal(907), "907");
    assert_eq!(u64_to_decimal(18446744073709551615), "18446744073709551615");
}

#[test]
fn fresh_cluster_fully_connected() {
    let cfg = Config::new(3, false, 0);
    for i in 0..3 {
        for j in 0..3 {
            assert!(cfg.link_enabled(i, j));
        }
    }
}

#[test]
fn partition_blocks_cross_links() {
    let mut cfg = Config::new(5, false, 0);
    let p1 = vec![0usize, 1, 2];
    let p2 = vec![3usize, 4];
    cfg.partition(&p1, &p2);
    for &a in &p1 {
        for &b in &p2 {
            assert!(!cfg.link_enabled(a, b));
            assert!(!cfg.link_enabled(b, a));
        }
    }
    for &a in &p1 {
        for &b in &p1 {
            assert!(cfg.link_enabled(a, b));
        }
    }
    for &a in &p2 {
        for &b in &p2 {
            assert!(cfg.link_enabled(a, b));
        }
    }
    cfg.connect_all();
    for i in 0..5 {
        for j in 0..5 {
            assert!(cfg.link_enabled(i, j));
        }
    }
}

#[test]
fn partition_leaves_omitted_peers_untouched() {
    let mut cfg = Config::new(5, false, 0);
    cfg.partition(&vec![0usize, 1], &vec![2usize, 3]);
    for j in 0..5 {
        assert!(cfg.link_enabled(4, j));
        assert!(cfg.link_enabled(j, 4));
    }
    assert!(!cfg.link_enabled(0, 2));
    assert!(!cfg.link_enabled(2, 0));
    assert!(cfg.link_enabled(0, 1));
    assert!(cfg.link_enabled(2, 3));
}

#[test]
fn leader_with_no_live_servers_is_not_found() {
    let mut cfg = Config::new(3, false, 0);
    for i in 0..3 {
        cfg.shutdown_server(i);
    }
    let reports = vec![true, true, true];
    assert_eq!(cfg.leader(&reports), Err(Error::NoLeader));
}

#[test]
fn leader_returns_first_reporting_live_slot() {
    let cfg = Config::new(3, false, 0);
    assert_eq!(cfg.leader(&vec![false, true, true]), Ok(1));
    assert_eq!(cfg.leader(&vec![false, false, false]), Err(Error::NoLeader));
}

#[test]
fn make_partition_splits_five_peers() {
    let cfg = Config::new(5, false, 0);
    let reports = vec![false, false, true, false, false];
    let (p1, p2) = cfg.make_partition(&reports);
    assert_eq!(p1.len(), 3);
    assert_eq!(p2.len(), 2);
    assert_eq!(p2[p2.len() - 1], 2);
    let mut all: Vec<usize> = p1.clone();
    all.extend(&p2);
    all.sort();
    assert_eq!(all, vec![0, 1, 2, 3, 4]);
    assert_eq!(p1, vec![0, 1, 3]);
    assert_eq!(p2, vec![4, 2]);
}

#[test]
fn make_partition_defaults_to_peer_zero() {
    let cfg = Config::new(5, false, 0);
    let (p1, p2) = cfg.make_partition(&vec![false; 5]);
    assert_eq!(p1, vec![1, 2, 3]);
    assert_eq!(p2, vec![4, 0]);
}

#[test]
fn make_partition_single_peer() {
    let cfg = Config::new(1, false, 0);
    let (p1, p2) = cfg.make_partition(&vec![true]);
    assert!(p1.is_empty());
    assert_eq!(p2, vec![0]);
}

#[test]
fn restart_preserves_persisted_bytes() {
    let mut cfg = Config::new(3, false, 0);
    cfg.persist(1, b"hello".to_vec(), b"snap".to_vec());
    assert_eq!(cfg.log_size(), 5);
    assert_eq!(cfg.snapshot_size(), 4);
    cfg.shutdown_server(1);
    assert_eq!(cfg.raft_state(1).as_slice(), b"hello");
    assert_eq!(cfg.log_size(), 5);
    cfg.start_server(1);
    assert_eq!(cfg.raft_state(1).as_slice(), b"hello");
    assert_eq!(cfg.snapshot(1).as_slice(), b"snap");
    assert_eq!(cfg.log_size(), 5);
    assert_eq!(cfg.snapshot_size(), 4);
}

#[test]
fn shutdown_isolates_and_start_rejoins_disconnected() {
    let mut cfg = Config::new(3, false, 0);
    cfg.shutdown_server(0);
    for j in 0..3 {
        assert!(!cfg.link_enabled(0, j));
        assert!(!cfg.link_enabled(j, 0));
    }
    assert!(cfg.link_enabled(1, 2));
    assert!(cfg.link_enabled(2, 1));
    cfg.start_server(0);
    for j in 0..3 {
        assert!(!cfg.link_enabled(0, j));
    }
    let all = vec![0usize, 1, 2];
    cfg.connect(0, &all);
    for j in 0..3 {
        assert!(cfg.link_enabled(0, j));
        assert!(cfg.link_enabled(j, 0));
    }
}

#[test]
fn lifecycle_slots() {
    let mut cfg = Config::new(3, false, 0);
    assert!(cfg.is_live(0));
    cfg.shutdown_server(0);
    assert!(!cfg.is_live(0));
    assert!(cfg.is_live(1));
    cfg.start_server(0);
    assert!(cfg.is_live(0));
}

#[test]
fn metrics_scenario_counts_ops_and_rpcs() {
    let mut cfg = Config::new(3, false, 0);
    let all = vec![0usize, 1, 2];
    let ck = cfg.make_client(&all);
    cfg.begin("basic");
    for _ in 0..10 {
        cfg.record_rpc();
        cfg.op();
    }
    cfg.record_rpc();
    let stats = cfg.end().expect("within budget");
    assert_eq!(stats.npeers, 3);
    assert_eq!(stats.nops, 10);
    assert!(stats.nrpc >= 10);
    assert_eq!(stats.nrpc, 11);
    cfg.delete_client(&ck);
}

#[test]
fn disconnected_leader_is_not_reported() {
    let mut cfg = Config::new(5, false, 0);
    let all: Vec<usize> = (0..5).collect();
    cfg.disconnect(0, &all);
    for j in 0..5 {
        assert!(!cfg.link_enabled(0, j));
        assert!(!cfg.link_enabled(j, 0));
    }
    let reports = vec![false, false, false, true, false];
    assert_eq!(cfg.leader(&reports), Ok(3));
}

#[test]
fn clients_connect_independently() {
    let mut cfg = Config::new(3, false, 0);
    let ck1 = cfg.make_client(&vec![0usize, 1, 2]);
    let ck2 = cfg.make_client(&vec![0usize]);
    assert!(cfg.clerk_link_enabled(&ck1, 2));
    assert!(cfg.clerk_link_enabled(&ck2, 0));
    assert!(!cfg.clerk_link_enabled(&ck2, 2));
    cfg.disconnect_client(&ck1, &vec![2usize]);
    assert!(!cfg.clerk_link_enabled(&ck1, 2));
    assert!(cfg.clerk_link_enabled(&ck1, 1));
    assert!(cfg.clerk_link_enabled(&ck2, 0));
    cfg.connect_client(&ck1, &vec![2usize]);
    assert!(cfg.clerk_link_enabled(&ck1, 2));
    for i in 0..3 {
        for j in 0..3 {
            assert!(cfg.link_enabled(i, j));
        }
    }
    assert_eq!(cfg.clerk_count(), 2);
    cfg.delete_client(&ck1);
    assert_eq!(cfg.clerk_count(), 1);
}

#[test]
fn client_endpoints_are_distinct_and_complete() {
    let mut cfg = Config::new(4, false, 0);
    let ck = cfg.make_client(&vec![0usize, 1, 2, 3]);
    let mut ends = ck.ends.clone();
    ends.sort();
    assert_eq!(ends.len(), 4);
    for w in ends.windows(2) {
        assert!(w[0] < w[1]);
    }
}

#[test]
fn budget_decision_is_exact() {
    assert!(!budget_exceeded(0));
    assert!(!budget_exceeded(120_000));
    assert!(budget_exceeded(120_001));
}

#[test]
fn error_descriptions() {
    assert_eq!(Error::NoLeader.describe(), "no leader found");
    assert_eq!(Error::TestBudgetExceeded.describe(), "test budget exceeded");
}

#[test]
fn teardown_kills_all_slots() {
    let mut cfg = Config::new(3, false, 0);
    assert!(cfg.teardown().is_ok());
    for i in 0..3 {
        assert!(!cfg.is_live(i));
    }
}

#[test]
fn unreliable_mode_is_recorded() {
    let cfg = Config::new(2, true, 0);
    assert!(cfg.check_timeout().is_ok());
    assert_eq!(cfg.rpc_total(), 0);
}
