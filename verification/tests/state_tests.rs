use archive_router::interval::{Interval, Range};
use archive_router::state::{PingMessage, PingMessageWorkerState, StateManager, WorkerId};
use archive_router::util::Timestamp;

const SECOND: u128 = 1_000_000_000;

fn at(nanos: u128) -> Timestamp {
    Timestamp { after_epoch: true, nanos }
}

fn before_epoch(nanos: u128) -> Timestamp {
    Timestamp { after_epoch: false, nanos }
}

fn range_of(pairs: &[(u32, u32)]) -> Range {
    Range::new(pairs.iter().map(|&(b, e)| Interval::new(b, e)).collect::<Vec<_>>().into_boxed_slice())
}

fn ping_msg(name: &str, url: &str, dataset: Option<&str>, pairs: &[(u32, u32)]) -> PingMessage {
    PingMessage {
        worker_id: name.to_string(),
        worker_url: url.to_string(),
        worker_state: dataset.map(|d| PingMessageWorkerState {
            dataset: d.to_string(),
            range: range_of(pairs),
        }),
    }
}

fn manager() -> StateManager {
    StateManager::new(
        "eth-main".to_string(),
        vec![Interval::new(0, 99), Interval::new(200, 299)],
        2,
    )
}

#[test]
fn worker_id_is_the_blake3_digest_of_the_name() {
    let id = WorkerId::from("");
    let expected: [u8; 32] = [
        175, 19, 73, 185, 245, 249, 161, 166, 160, 64, 77, 234, 54, 220, 201, 73, 155, 203, 37,
        201, 173, 193, 18, 183, 204, 154, 147, 202, 228, 31, 50, 98,
    ];
    assert_eq!(format!("{:?}", id), format!("WorkerId({:?})", expected));
}

#[test]
fn worker_ids_compare_by_digest() {
    let a = WorkerId::from("worker-a");
    let a2 = WorkerId::from("worker-a");
    let b = WorkerId::from("worker-b");
    assert!(a.same_as(&a2));
    assert_eq!(a, a2);
    assert!(!a.same_as(&b));
    assert_ne!(a, b);
}

#[test]
fn first_ping_registers_the_worker_with_its_reported_range() {
    let mut m = manager();
    let resp = m.ping_at(ping_msg("w1", "http://w1", Some("eth-main"), &[(0, 99)]), at(100 * SECOND));
    assert_eq!(resp.dataset, "eth-main");
    assert!(resp.range.has(0));
    assert!(resp.range.has(99));
    assert!(!resp.range.has(100));
    assert_eq!(m.pick_worker(50, at(100 * SECOND), 0), Some("http://w1".to_string()));
}

#[test]
fn ping_for_another_dataset_reports_nothing() {
    let mut m = manager();
    let resp = m.ping_at(ping_msg("w1", "http://w1", Some("other"), &[(0, 99)]), at(10 * SECOND));
    assert!(!resp.range.has(0));
    assert_eq!(m.pick_worker(50, at(10 * SECOND), 0), None);
    let resp = m.ping_at(ping_msg("w2", "http://w2", None, &[]), at(10 * SECOND));
    assert!(!resp.range.has(0));
}

#[test]
fn later_pings_keep_the_first_desired_range() {
    let mut m = manager();
    m.ping_at(ping_msg("w1", "http://w1", Some("eth-main"), &[(0, 99)]), at(10 * SECOND));
    let resp = m.ping_at(ping_msg("w1", "http://w1b", Some("eth-main"), &[(0, 299)]), at(20 * SECOND));
    // still asked to hold what it held first
    assert!(resp.range.has(50));
    assert!(!resp.range.has(250));
    // the reported range grew, but the worker only serves what it is asked to hold
    assert_eq!(m.pick_worker(50, at(20 * SECOND), 0), Some("http://w1b".to_string()));
    assert_eq!(m.pick_worker(250, at(20 * SECOND), 0), None);
}

#[test]
fn pick_worker_needs_a_recent_ping_and_both_ranges() {
    let mut m = manager();
    m.ping_at(ping_msg("w1", "http://w1", Some("eth-main"), &[(0, 99)]), at(100 * SECOND));
    // exactly 30 seconds later the worker is no longer offered
    assert_eq!(m.pick_worker(10, at(129 * SECOND), 0), Some("http://w1".to_string()));
    assert_eq!(m.pick_worker(10, at(130 * SECOND), 0), None);
    // a clock behind the ping counts as no time elapsed
    assert_eq!(m.pick_worker(10, at(50 * SECOND), 0), Some("http://w1".to_string()));
    // a block outside the range
    assert_eq!(m.pick_worker(150, at(100 * SECOND), 0), None);
}

#[test]
fn pick_worker_chooses_by_position_modulo_the_candidates() {
    let mut m = manager();
    m.ping_at(ping_msg("a", "http://a", Some("eth-main"), &[(0, 99)]), at(100 * SECOND));
    m.ping_at(ping_msg("b", "http://b", Some("eth-main"), &[(200, 299)]), at(100 * SECOND));
    m.ping_at(ping_msg("c", "http://c", Some("eth-main"), &[(0, 50)]), at(100 * SECOND));
    assert_eq!(m.pick_worker(10, at(100 * SECOND), 0), Some("http://a".to_string()));
    assert_eq!(m.pick_worker(10, at(100 * SECOND), 1), Some("http://c".to_string()));
    assert_eq!(m.pick_worker(10, at(100 * SECOND), 2), Some("http://a".to_string()));
    assert_eq!(m.pick_worker(10, at(100 * SECOND), 7), Some("http://c".to_string()));
    assert_eq!(m.pick_worker(250, at(100 * SECOND), 5), Some("http://b".to_string()));
}

#[test]
fn get_worker_returns_a_candidate() {
    let mut m = manager();
    assert_eq!(m.get_worker(10), None);
    m.ping(ping_msg("a", "http://a", Some("eth-main"), &[(0, 99)]));
    m.ping(ping_msg("c", "http://c", Some("eth-main"), &[(0, 50)]));
    for _ in 0..20 {
        let url = m.get_worker(10).unwrap();
        assert!(url == "http://a" || url == "http://c");
    }
    assert_eq!(m.get_worker(150), None);
}

#[test]
fn ping_answers_with_the_dataset() {
    let mut m = manager();
    let resp = m.ping(ping_msg("a", "http://a", Some("eth-main"), &[(5, 6)]));
    assert_eq!(resp.dataset, "eth-main");
    assert!(resp.range.has(5));
}

#[test]
fn plan_holders_lists_live_workers_holding_each_interval_start() {
    let mut m = manager();
    m.ping_at(ping_msg("a", "http://a", Some("eth-main"), &[(0, 99)]), at(0));
    m.ping_at(ping_msg("b", "http://b", Some("eth-main"), &[(200, 299)]), at(1000 * SECOND));
    m.ping_at(ping_msg("c", "http://c", Some("eth-main"), &[(0, 10), (200, 210)]), at(1000 * SECOND));
    // at 1000 s worker a is dead (last ping 1000 s ago); b and c are live
    let plan = m.plan_holders(at(1000 * SECOND));
    assert_eq!(plan, vec![vec![1], vec![0, 1]]);
    // at 500 s all three count: a pinged 500 s ago, b and c ping in the future
    let plan = m.plan_holders(at(500 * SECOND));
    assert_eq!(plan, vec![vec![0, 2], vec![1, 2]]);
    m.schedule();
}

#[test]
fn repeated_pings_register_a_worker_once() {
    let mut m = manager();
    m.ping_at(ping_msg("a", "http://a", Some("eth-main"), &[(0, 99)]), at(10 * SECOND));
    m.ping_at(ping_msg("a", "http://a", Some("eth-main"), &[(0, 99)]), at(11 * SECOND));
    m.ping_at(ping_msg("b", "http://b", Some("eth-main"), &[(0, 99)]), at(12 * SECOND));
    m.ping_at(ping_msg("a", "http://a2", None, &[]), at(13 * SECOND));
    // two workers hold block 0 by their desired range; a no longer reports it
    assert_eq!(m.plan_holders(at(13 * SECOND)), vec![vec![0, 1], vec![]]);
    assert_eq!(m.pick_worker(0, at(13 * SECOND), 0), Some("http://b".to_string()));
    assert_eq!(m.pick_worker(0, at(13 * SECOND), 1), Some("http://b".to_string()));
}

#[test]
fn clocks_before_the_epoch_count_exactly() {
    let mut m = manager();
    m.ping_at(ping_msg("w1", "http://w1", Some("eth-main"), &[(0, 99)]), before_epoch(100 * SECOND));
    // 20 seconds after the ping, still before the epoch
    assert_eq!(m.pick_worker(10, before_epoch(80 * SECOND), 0), Some("http://w1".to_string()));
    // 30 seconds after the ping
    assert_eq!(m.pick_worker(10, before_epoch(70 * SECOND), 0), None);
    // long after, past the epoch
    assert_eq!(m.pick_worker(10, at(5 * SECOND), 0), None);
    // a clock behind the ping counts as no time elapsed
    assert_eq!(m.pick_worker(10, before_epoch(200 * SECOND), 0), Some("http://w1".to_string()));
    // across the epoch: pinged 10 s before it, asked 15 s after it
    m.ping_at(ping_msg("w1", "http://w1", Some("eth-main"), &[(0, 99)]), before_epoch(10 * SECOND));
    assert_eq!(m.pick_worker(10, at(15 * SECOND), 0), Some("http://w1".to_string()));
    assert_eq!(m.pick_worker(10, at(20 * SECOND), 0), None);
    assert_eq!(m.plan_holders(at(589 * SECOND)), vec![vec![0], vec![]]);
    assert_eq!(m.plan_holders(at(590 * SECOND)), vec![vec![], vec![]]);
}
