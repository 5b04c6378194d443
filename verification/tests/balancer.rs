use tcplb::Addr;
use tcplb::WeightedAddr;
use tcplb::balancer::Balancer;
use tcplb::balancer::RequestOutcome;
use tcplb::endpoint::Status;

fn wa(ip: u32, port: u16, weight: u32) -> WeightedAddr {
    WeightedAddr { addr: Addr { ip, port }, weight }
}

const A: u32 = 0x0a000001;
const B: u32 = 0x0a000002;

#[test]
fn reconcile_inserts_unprobed_rows() {
    let mut bal = Balancer::new(8, 3, 5);
    bal.apply_update(&vec![wa(A, 80, 1000), wa(B, 80, 3000)]);
    assert_eq!(bal.table.len(), 2);
    let ra = bal.table.get(0);
    assert_eq!(ra.addr, Addr { ip: A, port: 80 });
    assert_eq!(ra.weight, 1000);
    assert_eq!(ra.status, Status::Unprobed);
    assert_eq!((ra.pending, ra.active, ra.consecutive_failures), (0, 0, 0));
    assert!(!ra.tombstoned);
    assert_eq!(bal.table.get(1).weight, 3000);
}

#[test]
fn reconcile_dedups_last_writer_wins() {
    let mut bal = Balancer::new(8, 3, 5);
    bal.apply_update(&vec![wa(A, 80, 1000), wa(B, 80, 2000), wa(A, 80, 7000)]);
    assert_eq!(bal.table.len(), 2);
    assert_eq!(bal.table.get(0).addr.ip, A);
    assert_eq!(bal.table.get(0).weight, 7000, "last writer wins");
    assert_eq!(bal.table.get(1).weight, 2000);
}

#[test]
fn reconcile_is_idempotent() {
    let mut bal = Balancer::new(8, 3, 5);
    let update = vec![wa(A, 80, 1000), wa(B, 443, 2500)];
    bal.apply_update(&update);
    let once: Vec<_> = (0..bal.table.len()).map(|i| bal.table.get(i)).collect();
    bal.apply_update(&update);
    let twice: Vec<_> = (0..bal.table.len()).map(|i| bal.table.get(i)).collect();
    assert_eq!(once, twice);
}

#[test]
fn reconcile_refreshes_weight_keeps_counters() {
    let mut bal = Balancer::new(8, 3, 5);
    bal.apply_update(&vec![wa(A, 80, 1000)]);
    match bal.connect_request(1) {
        RequestOutcome::Selected { index, .. } => {
            bal.connect_succeeded(index);
        }
        other => panic!("expected selection, got {:?}", other),
    }
    bal.apply_update(&vec![wa(A, 80, 9000)]);
    let r = bal.table.get(0);
    assert_eq!(r.weight, 9000);
    assert_eq!(r.active, 1, "counters survive reconciliation");
    assert_eq!(r.status, Status::Ready);
}

#[test]
fn removal_and_restore_are_atomic() {
    let mut bal = Balancer::new(8, 3, 5);
    bal.apply_update(&vec![wa(A, 80, 1000), wa(B, 80, 2000)]);
    // B is drained (no pending, no active): an update without it removes it
    bal.apply_update(&vec![wa(A, 80, 1000)]);
    assert_eq!(bal.table.len(), 1);
    assert_eq!(bal.table.get(0).addr.ip, A);
    // an update naming B again restores it at the given weight
    bal.apply_update(&vec![wa(A, 80, 1000), wa(B, 80, 5000)]);
    assert_eq!(bal.table.len(), 2);
    let rb = bal.table.get(1);
    assert_eq!(rb.addr.ip, B);
    assert_eq!(rb.weight, 5000);
    assert_eq!(rb.status, Status::Unprobed);
}

#[test]
fn absent_address_with_sessions_is_tombstoned_until_drained() {
    let mut bal = Balancer::new(8, 3, 5);
    bal.apply_update(&vec![wa(A, 80, 1000)]);
    let index = match bal.connect_request(1) {
        RequestOutcome::Selected { index, .. } => index,
        other => panic!("expected selection, got {:?}", other),
    };
    bal.connect_succeeded(index);
    // negative resolution: the empty set; A still has an active session
    bal.apply_update(&Vec::new());
    assert_eq!(bal.table.len(), 1);
    assert!(bal.table.get(0).tombstoned, "draining rows are kept, barred");
    // a tombstoned row is not selectable: new requests find no endpoint
    assert!(matches!(bal.connect_request(2), RequestOutcome::Enqueued));
    // once the session closes, the next update removes the row
    bal.session_closed(0);
    bal.apply_update(&Vec::new());
    assert_eq!(bal.table.len(), 0);
}

#[test]
fn no_endpoints_fails_fast_when_queue_full() {
    // max_waiters = 0: the queue is always full
    let mut bal = Balancer::new(0, 3, 5);
    assert!(matches!(bal.connect_request(1), RequestOutcome::Rejected));
}

#[test]
fn waiter_queue_is_bounded() {
    let mut bal = Balancer::new(2, 3, 5);
    assert!(matches!(bal.connect_request(1), RequestOutcome::Enqueued));
    assert!(matches!(bal.connect_request(2), RequestOutcome::Enqueued));
    assert!(matches!(bal.connect_request(3), RequestOutcome::Rejected));
    assert_eq!(bal.waiters.len(), 2);
}

#[test]
fn waiters_leave_in_arrival_order() {
    let mut bal = Balancer::new(8, 3, 5);
    for w in 1..=5u64 {
        assert!(matches!(bal.connect_request(w), RequestOutcome::Enqueued));
    }
    for w in 1..=5u64 {
        assert_eq!(bal.take_waiter(), Some(w));
    }
    assert_eq!(bal.take_waiter(), None);
}

#[test]
fn cancelled_waiter_frees_its_slot() {
    let mut bal = Balancer::new(2, 3, 5);
    assert!(matches!(bal.connect_request(1), RequestOutcome::Enqueued));
    assert!(matches!(bal.connect_request(2), RequestOutcome::Enqueued));
    assert!(bal.cancel_waiter(1));
    assert!(!bal.cancel_waiter(1), "already gone");
    assert!(matches!(bal.connect_request(3), RequestOutcome::Enqueued));
    assert_eq!(bal.take_waiter(), Some(2));
    assert_eq!(bal.take_waiter(), Some(3));
}

#[test]
fn failover_retries_on_the_other_endpoint() {
    let mut bal = Balancer::new(8, 3, 5);
    bal.apply_update(&vec![wa(A, 80, 1000), wa(B, 80, 1000)]);
    // the attempt goes to A, which refuses the connection
    let ia = bal.table.find(Addr { ip: A, port: 80 }).unwrap();
    let x = bal.table.pick_weighted(None, 0);
    assert_eq!(x, ia, "draw 0 lands on the first candidate");
    bal.begin_connect(ia);
    bal.connect_failed(ia, 0);
    assert_eq!(bal.table.get(ia).consecutive_failures, 1);
    // the one in-session retry excludes A and lands on B
    let ib = bal
        .table
        .select(Some(Addr { ip: A, port: 80 }))
        .expect("B is available");
    assert_eq!(bal.table.get(ib).addr.ip, B);
    bal.begin_connect(ib);
    bal.connect_succeeded(ib);
    assert_eq!(bal.table.get(ib).active, 1);
    assert_eq!(bal.active_sessions, 1);
    bal.session_closed(ib);
    assert_eq!(bal.table.get(ib).active, 0);
    assert_eq!(bal.active_sessions, 0);
}

#[test]
fn threshold_sends_endpoint_to_failed_and_cooldown_releases_it() {
    let mut bal = Balancer::new(8, 3, 10);
    bal.apply_update(&vec![wa(A, 80, 1000)]);
    for k in 1..=3u64 {
        let index = match bal.connect_request(1) {
            RequestOutcome::Selected { index, .. } => index,
            other => panic!("expected selection, got {:?}", other),
        };
        bal.connect_failed(index, 100);
        assert_eq!(bal.table.get(index).consecutive_failures, k);
    }
    assert_eq!(bal.table.get(0).status, Status::Failed);
    // no further attempt reaches the endpoint before the cooldown ends
    assert!(matches!(bal.connect_request(2), RequestOutcome::Enqueued));
    bal.tick(105);
    assert_eq!(bal.table.get(0).status, Status::Failed, "cooldown still running");
    bal.tick(110);
    assert_eq!(bal.table.get(0).status, Status::Unprobed, "cooldown elapsed");
    assert!(matches!(bal.connect_request(3), RequestOutcome::Selected { .. }));
}

#[test]
fn weighted_windows_select_by_weight() {
    let mut bal = Balancer::new(8, 3, 5);
    bal.apply_update(&vec![wa(A, 80, 2), wa(B, 80, 3)]);
    for x in 0..2u128 {
        assert_eq!(bal.table.pick_weighted(None, x), 0);
    }
    for x in 2..5u128 {
        assert_eq!(bal.table.pick_weighted(None, x), 1);
    }
}

#[test]
fn weighted_distribution_matches_normalized_weights() {
    let mut bal = Balancer::new(8, 3, 5);
    bal.apply_update(&vec![wa(A, 80, 1000), wa(B, 80, 3000)]);
    let total = bal.table.total_weight(None);
    assert_eq!(total, 4000);
    let mut counts = [0u32; 2];
    // a uniform grid of draws over [0, total)
    for k in 0..1000u128 {
        let x = k * total / 1000;
        counts[bal.table.pick_weighted(None, x)] += 1;
    }
    assert_eq!(counts[0], 250);
    assert_eq!(counts[1], 750);
}

#[test]
fn random_selection_stays_on_candidates() {
    let mut bal = Balancer::new(8, 3, 5);
    bal.apply_update(&vec![wa(A, 80, 1000)]);
    for _ in 0..16 {
        assert_eq!(bal.table.select(None), Some(0), "only one candidate");
    }
    bal.apply_update(&vec![wa(A, 80, 1000), wa(B, 80, 1000)]);
    for _ in 0..16 {
        let i = bal.table.select(None).unwrap();
        assert!(i < 2);
    }
    assert_eq!(bal.table.select(Some(Addr { ip: A, port: 80 })).unwrap(), 1);
}

#[test]
fn zero_weight_candidates_are_never_drawn() {
    let mut bal = Balancer::new(8, 3, 5);
    bal.apply_update(&vec![wa(A, 80, 0)]);
    assert_eq!(bal.table.select(None), None);
    assert!(matches!(bal.connect_request(1), RequestOutcome::Enqueued));
}

#[test]
fn session_sum_matches_active_counters() {
    let mut bal = Balancer::new(8, 3, 5);
    bal.apply_update(&vec![wa(A, 80, 1000), wa(B, 80, 1000)]);
    for _ in 0..3 {
        let index = match bal.connect_request(1) {
            RequestOutcome::Selected { index, .. } => index,
            other => panic!("expected selection, got {:?}", other),
        };
        bal.connect_succeeded(index);
    }
    let sum: u64 = (0..bal.table.len()).map(|i| bal.table.get(i).active).sum();
    assert_eq!(sum, 3);
    assert_eq!(bal.active_sessions, 3);
}

#[test]
fn single_endpoint_happy_path() {
    // discovery answers with one bound address; a session runs and closes
    let body = br#"{"type":"bound","addrs":[{"ip":"127.0.0.1","port":9001,"meta":{}}]}"#.to_vec();
    let update = match tcplb::namerd::decode(&body).unwrap() {
        tcplb::namerd::Update::Bound(v) => v,
        other => panic!("expected bound, got {:?}", other),
    };
    let mut bal = Balancer::new(8, 3, 5);
    bal.apply_update(&update);
    let index = match bal.connect_request(1) {
        RequestOutcome::Selected { index, addr } => {
            assert_eq!(addr, Addr { ip: 0x7f000001, port: 9001 });
            index
        }
        other => panic!("expected selection, got {:?}", other),
    };
    bal.connect_succeeded(index);
    assert_eq!(bal.table.get(index).active, 1, "active reaches 1 during the session");
    bal.session_closed(index);
    assert_eq!(bal.table.get(index).active, 0, "and 0 after close");
}

#[test]
fn negative_resolution_drains_and_fails_fast() {
    // max_waiters = 0: with the pool drained, new requests fail at once
    let mut bal = Balancer::new(0, 3, 5);
    bal.apply_update(&vec![wa(A, 80, 1000), wa(B, 80, 1000)]);
    bal.apply_update(&vec![wa(A, 80, 1000), wa(B, 80, 1000)]);
    let index = match bal.connect_request(1) {
        RequestOutcome::Selected { index, .. } => index,
        other => panic!("expected selection, got {:?}", other),
    };
    bal.connect_succeeded(index);
    // one poll answers negatively: the empty set
    bal.apply_update(&Vec::new());
    assert!(matches!(bal.connect_request(2), RequestOutcome::Rejected), "no endpoints");
    // the existing session continues until its natural close
    assert_eq!(bal.table.get(0).active, 1);
    bal.session_closed(0);
    bal.apply_update(&Vec::new());
    assert_eq!(bal.table.len(), 0);
}
