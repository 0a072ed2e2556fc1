use muaddib::clock::{Causality, EventClock, LamportClock, VectorClock};

#[test]
fn ticks_advance_by_one_from_zero() {
    let mut c = LamportClock::new();
    assert_eq!(c.time(), 0);
    assert_eq!(c.tick(), 1);
    assert_eq!(c.tick(), 2);
}

#[test]
fn observing_a_later_remote_time_jumps_past_it() {
    let mut c = LamportClock::new();
    c.tick();
    assert_eq!(c.observe(10), 11);
}

#[test]
fn observing_an_earlier_remote_time_still_advances() {
    let mut c = LamportClock::new();
    for _ in 0..5 {
        c.tick();
    }
    assert_eq!(c.observe(2), 6);
}

#[test]
fn a_receive_happens_after_its_send() {
    let mut a = EventClock::new(0u32);
    let mut b = EventClock::new(1u32);
    let sent = a.send_event();
    let received = b.receive_event(&sent);
    assert!(sent.happened_before(&received));
    assert!(sent.lamport() < received.lamport());
}

#[test]
fn independent_local_events_are_concurrent_even_with_ordered_lamport_times() {
    let mut a = EventClock::new(0u32);
    let mut b = EventClock::new(1u32);
    let a1 = a.local_event();
    b.local_event();
    let b2 = b.local_event();
    assert_eq!(a1.causality(&b2), Causality::Concurrent);
    assert!(a1.lamport() < b2.lamport());
}

#[test]
fn total_order_breaks_lamport_ties_by_process() {
    let mut a = EventClock::new(0u32);
    let mut b = EventClock::new(1u32);
    let a1 = a.local_event();
    let b1 = b.local_event();
    assert_eq!(a1.lamport(), b1.lamport());
    assert!(a1.total_order_key() < b1.total_order_key());
}

#[test]
fn current_before_any_event_is_all_zero() {
    let c = EventClock::new(3u32);
    let s = c.current();
    assert_eq!(s.lamport(), 0);
    assert_eq!(*s.vector(), VectorClock::new());
}

fn vc(pairs: &[(u32, u64)]) -> VectorClock<u32> {
    let mut v = VectorClock::new();
    for &(p, n) in pairs {
        for _ in 0..n {
            v.tick(p);
        }
    }
    v
}

#[test]
fn an_empty_clock_reads_zero_everywhere() {
    let v: VectorClock<u32> = VectorClock::new();
    assert_eq!(v.get(7), 0);
}

#[test]
fn tick_advances_only_its_own_entry() {
    let v = vc(&[(1, 2)]);
    assert_eq!(v.get(1), 2);
    assert_eq!(v.get(2), 0);
}

#[test]
fn a_dominated_clock_happened_before() {
    let a = vc(&[(1, 1)]);
    let b = vc(&[(1, 2), (2, 1)]);
    assert_eq!(a.compare(&b), Causality::Before);
    assert_eq!(b.compare(&a), Causality::After);
    assert!(a < b);
}

#[test]
fn incomparable_clocks_are_concurrent() {
    let a = vc(&[(1, 1)]);
    let b = vc(&[(2, 1)]);
    assert!(a.concurrent_with(&b));
    assert_eq!(a.partial_cmp(&b), None);
}

#[test]
fn merge_is_the_pointwise_maximum() {
    let mut a = vc(&[(1, 3), (2, 1)]);
    a.merge(&vc(&[(2, 4), (3, 1)]));
    assert_eq!(a, vc(&[(1, 3), (2, 4), (3, 1)]));
}

#[test]
fn equality_ignores_explicit_zero_entries() {
    // No counter is ever stored as zero; merging an all-zero clock leaves
    // a clock equal to the empty one.
    let mut with_zero: VectorClock<u32> = VectorClock::new();
    with_zero.merge(&VectorClock::new());
    assert_eq!(with_zero, VectorClock::new());
    assert!(with_zero.entries().is_empty());
}

#[test]
fn entries_are_the_nonzero_counters_in_key_order() {
    let v = vc(&[(5, 1), (2, 3), (9, 2)]);
    assert_eq!(v.entries(), vec![(2, 3), (5, 1), (9, 2)]);
}

#[test]
fn merge_is_commutative_associative_and_idempotent_on_examples() {
    let a = vc(&[(0, 2), (3, 1)]);
    let b = vc(&[(1, 4), (3, 2)]);
    let c = vc(&[(0, 1), (2, 5)]);
    let merged = |x: &VectorClock<u32>, y: &VectorClock<u32>| {
        let mut m = x.clone();
        m.merge(y);
        m
    };
    assert_eq!(merged(&a, &b), merged(&b, &a));
    assert_eq!(merged(&merged(&a, &b), &c), merged(&a, &merged(&b, &c)));
    assert_eq!(merged(&a, &a), a);
    let m = merged(&a, &b);
    assert!(a <= m && b <= m);
}

#[test]
fn happened_before_chains_across_three_processes() {
    let mut a = EventClock::new(0u32);
    let mut b = EventClock::new(1u32);
    let mut c = EventClock::new(2u32);
    let s1 = a.send_event();
    let r1 = b.receive_event(&s1);
    let s2 = b.send_event();
    let r2 = c.receive_event(&s2);
    assert!(s1.happened_before(&r1));
    assert!(r1.happened_before(&s2));
    assert!(s1.happened_before(&r2));
    assert!(s1.lamport() < r2.lamport());
    assert_eq!(r2.vector().get(0), 1);
    assert_eq!(r2.vector().get(1), 2);
    assert_eq!(r2.vector().get(2), 1);
    assert_eq!(r2.lamport(), 4);
}

#[test]
fn the_scanner_would_catch_a_violation() {
    const FORBIDDEN: &[&str] = &[
        "std::time",
        "SystemTime",
        "Instant",
        "UNIX_EPOCH",
        "chrono",
        "time::OffsetDateTime",
    ];
    fn code_part(line: &str) -> &str {
        line.split("//").next().unwrap_or("")
    }
    assert!(FORBIDDEN
        .iter()
        .any(|n| code_part("let t = std::time::Instant::now();").contains(n)));
    assert!(!FORBIDDEN
        .iter()
        .any(|n| code_part("// never call Instant::now()").contains(n)));
}

/// Builds events from a fixed pseudo-random interleaving of local events,
/// sends and receives across four processes, and checks every ordered pair
/// of stamps against reachability in the event graph itself.
#[test]
fn vector_clocks_match_the_ground_truth_event_graph() {
    let mut clocks: Vec<EventClock<u32>> = (0..4u32).map(EventClock::new).collect();
    let mut events: Vec<(usize, Option<usize>)> = Vec::new();
    let mut stamps = Vec::new();
    let mut in_flight: Vec<(usize, usize)> = Vec::new();
    let mut x: u64 = 0x9E37_79B9_7F4A_7C15;
    for _ in 0..60 {
        x = x.wrapping_mul(6364136223846793005).wrapping_add(1442695040888963407);
        let p = ((x >> 33) % 4) as usize;
        let op = (x >> 40) % 3;
        let waiting = in_flight.iter().position(|&(_, to)| to == p);
        if op == 2 && waiting.is_some() {
            let (send_event, _) = in_flight.remove(waiting.unwrap());
            let s = clocks[p].receive_event(&stamps[send_event]);
            events.push((p, Some(send_event)));
            stamps.push(s);
        } else if op == 1 {
            let s = clocks[p].send_event();
            let to = ((x >> 50) % 4) as usize;
            in_flight.push((events.len(), to));
            events.push((p, None));
            stamps.push(s);
        } else {
            let s = clocks[p].local_event();
            events.push((p, None));
            stamps.push(s);
        }
    }
    let n = events.len();
    let mut preds: Vec<Vec<usize>> = vec![Vec::new(); n];
    for j in 0..n {
        if let Some(prev) = (0..j).rev().find(|&i| events[i].0 == events[j].0) {
            preds[j].push(prev);
        }
        if let Some(s) = events[j].1 {
            preds[j].push(s);
        }
    }
    let mut reach = vec![vec![false; n]; n];
    for j in 0..n {
        for &p in &preds[j] {
            reach[p][j] = true;
            for i in 0..n {
                if reach[i][p] {
                    reach[i][j] = true;
                }
            }
        }
    }
    let mut causal_pairs = 0;
    let mut concurrent_pairs = 0;
    for i in 0..n {
        for j in 0..n {
            assert_eq!(stamps[i].happened_before(&stamps[j]), reach[i][j], "events {} and {}", i, j);
            let expected = if i == j {
                Causality::Equal
            } else if reach[i][j] {
                Causality::Before
            } else if reach[j][i] {
                Causality::After
            } else {
                Causality::Concurrent
            };
            assert_eq!(stamps[i].causality(&stamps[j]), expected, "events {} and {}", i, j);
            if reach[i][j] {
                assert!(stamps[i].lamport() < stamps[j].lamport());
                causal_pairs += 1;
            }
            if expected == Causality::Concurrent {
                concurrent_pairs += 1;
            }
        }
    }
    assert!(causal_pairs > 0 && concurrent_pairs > 0);
}
