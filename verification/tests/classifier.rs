use idiod::classifier::{is_path_allowed, prune_target, PeerTable};
use idiod::firewall::FirewallAdded;
use idiod::config::{span_from_secs, BaseConfig, DURATION_MAX_NANOS};
use idiod::events::{EventQueue, PeerEvent, EVENTQ_SIZE};
use idiod::message::Message;
use idiod::netaddr::NetAddr;
use idiod::peer::PeerState;
use idiod::rate::{Rate, RateSample};

const SEC: u64 = 1_000_000_000;

fn msg(addr: NetAddr, stamp: u64) -> Message {
    Message::new(stamp, "test".to_string(), addr, 100, "/".to_string())
}

#[test]
fn event_queue_keeps_latest() {
    let mut q = EventQueue::new();
    assert_eq!(q.back(), None);
    for i in 0..200u64 {
        q.push_back(PeerEvent::new(i));
        assert_eq!(q.back(), Some(PeerEvent::new(i)));
        assert_eq!(q.len(), std::cmp::min(i as usize + 1, EVENTQ_SIZE));
    }
}

#[test]
fn rate_counter_samples() {
    let mut r = Rate::new();
    assert_eq!(r.count(), 0);
    assert_eq!(r.feed(10), Some(RateSample::Initial));
    assert_eq!(r.feed(10), None);
    assert_eq!(r.feed(5), None);
    assert_eq!(r.feed(25), Some(RateSample::Interval(15)));
    assert_eq!(r.count(), 2);
    for i in 0..70000u64 {
        r.feed(100 + i);
    }
    assert_eq!(r.count(), u16::MAX as usize);
}

#[test]
fn block_timeout_doubles_up_to_max() {
    let mut p = PeerState::new(NetAddr::V4(1));
    let base = 60 * 1_000_000_000u128;
    let max = 3600 * 1_000_000_000u128;
    assert_eq!(p.fw_block_timeout(base, max), base);
    assert_eq!(p.blocked(), 1);
    assert_eq!(p.fw_block_timeout(base, max), 2 * base);
    p.blocked();
    assert_eq!(p.fw_block_timeout(base, max), 4 * base);
    for _ in 0..10 {
        p.blocked();
    }
    assert_eq!(p.fw_block_timeout(base, max), max);
    // The product saturates at the longest duration.
    for _ in 0..40 {
        p.blocked();
    }
    assert_eq!(p.fw_block_timeout(DURATION_MAX_NANOS, DURATION_MAX_NANOS), DURATION_MAX_NANOS);
    let mut q = PeerState::new(NetAddr::V4(2));
    for _ in 0..70000 {
        q.blocked();
    }
    assert_eq!(q.blocked(), u16::MAX);
}

#[test]
fn peer_events_and_timeout() {
    let mut p = PeerState::new(NetAddr::V4(1));
    assert_eq!(p.last_event(), None);
    assert_eq!(p.last_touched_time(99), 99);
    assert_eq!(p.add_event(&msg(NetAddr::V4(1), 5 * SEC)), Some(RateSample::Initial));
    assert_eq!(p.add_event(&msg(NetAddr::V4(1), 7 * SEC)), Some(RateSample::Interval(2 * SEC)));
    assert_eq!(p.last_touched_time(99), 7 * SEC);
    assert_eq!(p.pkg_rate_count(), 2);
    assert!(!p.is_timed_out(10 * SEC as u128, 16 * SEC));
    assert!(p.is_timed_out(10 * SEC as u128, 17 * SEC));
    assert!(!p.is_timed_out(10 * SEC as u128, 1));
}

#[test]
fn table_records_new_and_known_peers() {
    let mut t = PeerTable::new(0);
    let r = t.record(&msg(NetAddr::V4(1), 10));
    assert!(r.is_new_peer);
    assert_eq!(r.new_peer_sample, Some(RateSample::Initial));
    assert_eq!(r.pkg_sample, Some(RateSample::Initial));
    assert_eq!(r.pkg_count, 1);
    let r = t.record(&msg(NetAddr::V4(1), 20));
    assert!(!r.is_new_peer);
    assert_eq!(r.new_peer_sample, None);
    assert_eq!(r.pkg_sample, Some(RateSample::Interval(10)));
    assert_eq!(r.pkg_count, 2);
    let r = t.record(&msg(NetAddr::V4(2), 30));
    assert!(r.is_new_peer);
    assert_eq!(r.new_peer_sample, Some(RateSample::Interval(20)));
    assert_eq!(t.len(), 2);
    assert_eq!(t.new_peer_count(), 2);
    assert_eq!(t.find(NetAddr::V4(2)), Some(1));
    assert_eq!(t.find(NetAddr::V4(3)), None);
}

#[test]
fn table_blocks_and_deadlines() {
    let mut t = PeerTable::new(0);
    t.record(&msg(NetAddr::V4(1), 100));
    assert_eq!(t.block_deadline(NetAddr::V4(1), 100, 50, 1000), Some(150));
    assert_eq!(t.note_blocked(NetAddr::V4(1)), Some(1));
    assert_eq!(t.block_deadline(NetAddr::V4(1), 100, 50, 1000), Some(200));
    assert_eq!(t.note_blocked(NetAddr::V4(9)), None);
    assert_eq!(t.block_deadline(NetAddr::V4(9), 100, 50, 1000), None);
}

#[test]
fn prune_forgets_oldest_peers() {
    let mut t = PeerTable::new(0);
    for i in 0..21u32 {
        t.record(&msg(NetAddr::V4(i), 1000 - i as u64));
    }
    // Over 20 peers: reduce to 19, the least recently touched first.
    let removed = t.prune(20);
    let addrs: Vec<NetAddr> = removed.iter().map(|p| p.addr()).collect();
    assert_eq!(addrs, vec![NetAddr::V4(20), NetAddr::V4(19)]);
    assert_eq!(t.len(), 19);
    assert!(t.prune(20).is_empty());
}

#[test]
fn prune_takes_one_peer_per_touch_time() {
    let mut t = PeerTable::new(0);
    for i in 0..11u32 {
        t.record(&msg(NetAddr::V4(i), 5));
    }
    // All share one time: only one peer goes, the last one kept in table order.
    let removed = t.prune(10);
    assert_eq!(removed.len(), 1);
    assert_eq!(removed[0].addr(), NetAddr::V4(10));
    assert_eq!(t.len(), 10);
}

#[test]
fn expire_forgets_silent_peers() {
    let mut t = PeerTable::new(0);
    t.record(&msg(NetAddr::V4(1), SEC));
    t.record(&msg(NetAddr::V4(2), 5 * SEC));
    t.record(&msg(NetAddr::V4(3), 2 * SEC));
    let gone = t.expire(span_from_secs(4), 6 * SEC);
    let addrs: Vec<NetAddr> = gone.iter().map(|p| p.addr()).collect();
    assert_eq!(addrs, vec![NetAddr::V4(1), NetAddr::V4(3)]);
    assert_eq!(t.len(), 1);
}

#[test]
fn schedules_and_counters() {
    let mut t = PeerTable::new(100);
    assert!(!t.decay_due(99, 10));
    assert!(t.decay_due(100, 10));
    assert!(!t.decay_due(109, 10));
    assert!(t.decay_due(110, 10));
    assert!(t.state_dump_due(100));
    assert!(!t.state_dump_due(100 + 59 * SEC));
    assert!(t.state_dump_due(100 + 60 * SEC));
    assert_eq!(t.global_limit_count(), 0);
    t.note_global_limit();
    assert_eq!(t.global_limit_count(), 1);
    assert!(!t.may_limit_globally(true, false));
    for i in 0..25u32 {
        t.record(&msg(NetAddr::V4(i), i as u64 + 1));
    }
    assert!(t.may_limit_globally(true, false));
    assert!(!t.may_limit_globally(true, true));
    assert!(!t.may_limit_globally(false, false));
}

#[test]
fn allowlisted_paths() {
    let list = vec!["/static/".to_string(), "/favicon".to_string()];
    assert!(is_path_allowed(&list, "/static/x.css"));
    assert!(is_path_allowed(&list, "/favicon.ico"));
    assert!(!is_path_allowed(&list, "/login"));
    assert!(!is_path_allowed(&list, "/stat"));
    assert!(!is_path_allowed(&vec![], "/"));
    assert!(is_path_allowed(&vec![String::new()], "/anything"));
}

#[test]
fn config_timeouts() {
    let b = BaseConfig { debug: 0, max_num_peers: 10, peer_timeout_secs: 30 };
    assert_eq!(b.peer_timeout(), 30 * SEC as u128);
    assert_eq!(span_from_secs(u64::MAX), DURATION_MAX_NANOS - 999_999_999);
}

#[test]
fn three_peers_over_a_maximum_of_two() {
    let mut t = PeerTable::new(0);
    t.record(&msg(NetAddr::V4(0x0a000001), SEC));
    t.record(&msg(NetAddr::V4(0x0a000002), 2 * SEC));
    t.record(&msg(NetAddr::V4(0x0a000003), 3 * SEC));
    let removed = t.prune(2);
    let addrs: Vec<NetAddr> = removed.iter().map(|p| p.addr()).collect();
    assert_eq!(addrs, vec![NetAddr::V4(0x0a000001), NetAddr::V4(0x0a000002)]);
    assert_eq!(t.len(), 1);
    assert!(t.find(NetAddr::V4(0x0a000003)).is_some());
}

#[test]
fn prune_target_is_95_percent() {
    assert_eq!(prune_target(2), 1);
    assert_eq!(prune_target(20), 19);
    assert_eq!(prune_target(1000), 950);
    assert_eq!(prune_target(usize::MAX), ((usize::MAX as u128) * 95 / 100) as usize);
}

#[test]
fn prune_with_a_huge_maximum() {
    let mut t = PeerTable::new(0);
    t.record(&msg(NetAddr::V4(1), SEC));
    assert!(t.prune(usize::MAX).is_empty());
    assert_eq!(t.len(), 1);
}

#[test]
fn firewall_answers_count_only_new_rules() {
    let mut t = PeerTable::new(0);
    let a = NetAddr::V4(1);
    t.record(&msg(a, SEC));
    assert_eq!(t.block_outcome(a, None), (false, None));
    assert_eq!(t.block_outcome(a, Some(FirewallAdded::ExistedAlready)), (true, None));
    assert_eq!(t.block_outcome(a, Some(FirewallAdded::NewEntry)), (true, Some(1)));
    assert_eq!(t.block_outcome(a, Some(FirewallAdded::NewEntry)), (true, Some(2)));
    assert_eq!(t.block_deadline(a, 0, 10, 1000), Some(40));

    assert!(!t.global_limit_outcome(None));
    assert!(!t.global_limit_outcome(Some(FirewallAdded::ExistedAlready)));
    assert_eq!(t.global_limit_count(), 0);
    assert!(t.global_limit_outcome(Some(FirewallAdded::NewEntry)));
    assert_eq!(t.global_limit_count(), 1);
}

#[test]
fn peer_count_stays_within_the_maximum() {
    let mut t = PeerTable::new(0);
    for i in 0..50u32 {
        t.record(&msg(NetAddr::V4(i % 30), SEC + i as u64));
        t.prune(7);
        assert!(t.len() <= 7);
    }
}
