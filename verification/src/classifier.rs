//! The peer table of the classifier: which peers were seen when, how often
//! they were blocked, and the pruning and expiry of peers.

use vstd::prelude::*;
use crate::config::DURATION_MAX_NANOS;
use crate::events::pushed_stamps;
use crate::firewall::FirewallAdded;
use crate::message::Message;
use crate::netaddr::NetAddr;
use crate::peer::{block_timeout, elapsed, PeerState};
use crate::rate::{sample_at, sat_inc_u16, Rate, RateSample};
use crate::seq_facts::{distinct_keys, lemma_filter_distinct, lemma_filter_take_ends, lemma_filter_take_step};

verus! {

broadcast use vstd::seq_lib::group_to_multiset_ensures, vstd::multiset::group_multiset_axioms;

/// How many new-peer samples must be taken before the new peer rate counts.
pub const NEWPEERRATE_WINDOW_SIZE: usize = 24;

/// The interval of the state report, in nanoseconds.
pub const STATE_DUMP_INTERVAL: u128 = 60_000_000_000;

/// The address of a peer.
pub open spec fn peer_addr(p: PeerState) -> NetAddr {
    p.spec_addr()
}

/// A peer that the table may hold: at least one event.
pub open spec fn peer_ok(p: PeerState) -> bool {
    p.stamps().len() > 0
}

/// Peers that a table may hold: each address at most once, every peer
/// with a non-empty history.
pub open spec fn peers_ok(s: Seq<PeerState>) -> bool {
    &&& distinct_keys(s, |p: PeerState| peer_addr(p))
    &&& forall|i: int| 0 <= i < s.len() ==> peer_ok(#[trigger] s[i])
}

/// `after` is `before` with a request at `stamp` recorded.
pub open spec fn event_added(before: PeerState, after: PeerState, stamp: u64) -> bool {
    &&& after.spec_addr() == before.spec_addr()
    &&& after.blocked_count() == before.blocked_count()
    &&& after.stamps() == pushed_stamps(before.stamps(), stamp)
    &&& match sample_at(before.pkg_rate().prev(), stamp) {
        Some(_) => after.pkg_rate().prev() == Some(stamp) && after.pkg_rate().samples()
            == sat_inc_u16(before.pkg_rate().samples()),
        None => after.pkg_rate() == before.pkg_rate(),
    }
}

/// `t` lies above `floor` (every time lies above no floor).
pub open spec fn above(t: u64, floor: Option<u64>) -> bool {
    match floor {
        Some(f) => t > f,
        None => true,
    }
}

/// Pruning `old` gave `new` and removed `removed`: the removed peers come
/// from `old`, one per distinct last-touched time, the times ascending from
/// the oldest; it stopped at `reduce_to` peers or when no later time was left.
pub open spec fn pruned(old: Seq<PeerState>, new: Seq<PeerState>, removed: Seq<PeerState>, reduce_to: int) -> bool {
    &&& new.to_multiset().add(removed.to_multiset()) == old.to_multiset()
    &&& removed.len() >= 1
    &&& forall|i: int, j: int|
        0 <= i < j < removed.len() ==> (#[trigger] removed[i]).touched() < (
        #[trigger] removed[j]).touched()
    &&& forall|p: PeerState|
        #[trigger] old.contains(p) && p.touched() <= removed.last().touched() ==> exists|k: int|
            0 <= k < removed.len() && (#[trigger] removed[k]).touched() == p.touched()
    &&& new.len() <= reduce_to || forall|p: PeerState|
        #[trigger] old.contains(p) ==> p.touched() <= removed.last().touched()
}

/// `after` is `before` with one more block counted for the peer `addr`,
/// whose new count is `r`; `r` is `None` and nothing changed where no peer has `addr`.
pub open spec fn block_noted(before: Seq<PeerState>, after: Seq<PeerState>, addr: NetAddr, r: Option<u16>) -> bool {
    &&& after.len() == before.len()
    &&& match r {
        Some(c) => exists|i: int| {
            &&& 0 <= i < before.len()
            &&& before[i].spec_addr() == addr
            &&& c == sat_inc_u16(before[i].blocked_count())
            &&& after[i].blocked_count() == c
            &&& after[i].spec_addr() == addr
            &&& after[i].stamps() == before[i].stamps()
            &&& after[i].pkg_rate() == before[i].pkg_rate()
            &&& forall|j: int| 0 <= j < before.len() && j != i ==> after[j] == before[j]
        },
        None => {
            &&& after == before
            &&& forall|i: int| 0 <= i < before.len() ==> (#[trigger] before[i]).spec_addr() != addr
        },
    }
}

/// What recording a request did.
#[derive(Clone, Copy, Debug)]
pub struct Recorded {
    /// The peer was not in the table before.
    pub is_new_peer: bool,
    /// The sample for the new peer rate average (only for a new peer).
    pub new_peer_sample: Option<RateSample>,
    /// The sample for the peer's packet rate average.
    pub pkg_sample: Option<RateSample>,
    /// The number of samples of the peer's packet rate counter.
    pub pkg_count: usize,
}

/// The index of the peer with `addr` in `peers`.
fn find_peer(peers: &Vec<PeerState>, addr: NetAddr) -> (r: Option<usize>)
    ensures
        match r {
            Some(i) => i < peers@.len() && peers@[i as int].spec_addr() == addr,
            None => forall|i: int| 0 <= i < peers@.len() ==> (#[trigger] peers@[i]).spec_addr() != addr,
        },
{
    let mut i: usize = 0;
    while i < peers.len()
        invariant
            i <= peers.len(),
            forall|j: int| 0 <= j < i ==> (#[trigger] peers@[j]).spec_addr() != addr,
        decreases peers.len() - i,
    {
        if peers[i].addr() == addr {
            return Some(i);
        }
        i = i + 1;
    }
    None
}

/// The classifier's peers and counters.
#[derive(Debug)]
pub struct PeerTable {
    peers: Vec<PeerState>,
    new_peer_rate: Rate,
    global_limit_count: u32,
    next_decay: u128,
    next_state_dump: u128,
}

impl PeerTable {
    pub closed spec fn peers(&self) -> Seq<PeerState> {
        self.peers@
    }

    pub closed spec fn new_peer_rate(&self) -> Rate {
        self.new_peer_rate
    }

    pub closed spec fn spec_global_limit_count(&self) -> u32 {
        self.global_limit_count
    }

    pub closed spec fn next_decay(&self) -> u128 {
        self.next_decay
    }

    pub closed spec fn next_state_dump(&self) -> u128 {
        self.next_state_dump
    }

    /// Each address at most once, every peer with a non-empty history.
    #[verifier::type_invariant]
    spec fn well_formed(&self) -> bool {
        peers_ok(self.peers@)
    }

    /// An empty table; decay and state report are due at `now`.
    pub fn new(now: u64) -> (r: Self)
        ensures
            r.peers() == Seq::<PeerState>::empty(),
            r.new_peer_rate().prev() is None,
            r.new_peer_rate().samples() == 0,
            r.spec_global_limit_count() == 0,
            r.next_decay() == now,
            r.next_state_dump() == now,
    {
        Self {
            peers: Vec::new(),
            new_peer_rate: Rate::new(),
            global_limit_count: 0,
            next_decay: now as u128,
            next_state_dump: now as u128,
        }
    }

    /// The number of peers.
    pub fn len(&self) -> (r: usize)
        ensures
            r == self.peers().len(),
    {
        self.peers.len()
    }

    /// The index of the peer with `addr`.
    pub fn find(&self, addr: NetAddr) -> (r: Option<usize>)
        ensures
            match r {
                Some(i) => i < self.peers().len() && self.peers()[i as int].spec_addr() == addr,
                None => forall|i: int| 0 <= i < self.peers().len() ==> (#[trigger] self.peers()[i]).spec_addr() != addr,
            },
    {
        find_peer(&self.peers, addr)
    }

    /// Record the request `msg`, adding its peer where it is new.
    pub fn record(&mut self, msg: &Message) -> (r: Recorded)
        ensures
            peers_ok(final(self).peers()),
            final(self).peers().len() <= old(self).peers().len() + 1,
            final(self).spec_global_limit_count() == old(self).spec_global_limit_count(),
            final(self).next_decay() == old(self).next_decay(),
            final(self).next_state_dump() == old(self).next_state_dump(),
            r.is_new_peer == forall|i: int| 0 <= i < old(self).peers().len() ==> (#[trigger] old(self).peers()[i]).spec_addr() != msg.spec_net_addr(),
            r.is_new_peer ==> {
                &&& final(self).peers().len() == old(self).peers().len() + 1
                &&& final(self).peers().drop_last() == old(self).peers()
                &&& final(self).peers().last().spec_addr() == msg.spec_net_addr()
                &&& final(self).peers().last().stamps() == seq![msg.spec_stamp()]
                &&& final(self).peers().last().blocked_count() == 0
                &&& final(self).peers().last().pkg_rate().prev() == Some(msg.spec_stamp())
                &&& final(self).peers().last().pkg_rate().samples() == 1
                &&& r.pkg_sample == Some(RateSample::Initial)
                &&& r.pkg_count == 1
                &&& r.new_peer_sample == sample_at(old(self).new_peer_rate().prev(), msg.spec_stamp())
                &&& r.new_peer_sample is Some ==> final(self).new_peer_rate().prev() == Some(msg.spec_stamp())
                    && final(self).new_peer_rate().samples() == sat_inc_u16(old(self).new_peer_rate().samples())
                &&& r.new_peer_sample is None ==> final(self).new_peer_rate() == old(self).new_peer_rate()
            },
            !r.is_new_peer ==> exists|i: int| {
                &&& 0 <= i < old(self).peers().len()
                &&& old(self).peers()[i].spec_addr() == msg.spec_net_addr()
                &&& final(self).peers().len() == old(self).peers().len()
                &&& forall|j: int| 0 <= j < old(self).peers().len() && j != i ==> final(self).peers()[j] == old(self).peers()[j]
                &&& event_added(old(self).peers()[i], final(self).peers()[i], msg.spec_stamp())
                &&& r.pkg_sample == sample_at(old(self).peers()[i].pkg_rate().prev(), msg.spec_stamp())
                &&& r.pkg_count == final(self).peers()[i].pkg_rate().samples()
                &&& r.new_peer_sample is None
                &&& final(self).new_peer_rate() == old(self).new_peer_rate()
            },
    {
        proof {
            use_type_invariant(&*self);
        }
        let mut peers: Vec<PeerState> = Vec::new();
        std::mem::swap(&mut peers, &mut self.peers);
        let addr = msg.net_addr();
        let stamp = msg.stamp();
        match find_peer(&peers, addr) {
            Some(i) => {
                let mut peer = peers.remove(i);
                proof {
                    assert(peer_ok(old(self).peers()[i as int]));
                }
                let pkg_sample = peer.add_event(msg);
                let pkg_count = peer.pkg_rate_count();
                peers.insert(i, peer);
                proof {
                    assert forall|j: int| 0 <= j < old(self).peers().len() && j != i implies peers@[j] == old(self).peers()[j] by {
                    }
                    assert forall|a: int, b: int|
                        0 <= a < peers@.len() && 0 <= b < peers@.len() && a != b implies
                        peer_addr(#[trigger] peers@[a]) != peer_addr(#[trigger] peers@[b]) by {
                        assert(peer_addr(old(self).peers()[a]) != peer_addr(old(self).peers()[b]));
                    }
                    assert forall|a: int| 0 <= a < peers@.len() implies peer_ok(#[trigger] peers@[a]) by {
                        if a != i {
                            assert(peer_ok(old(self).peers()[a]));
                        }
                    }
                }
                self.peers = peers;
                Recorded { is_new_peer: false, new_peer_sample: None, pkg_sample, pkg_count }
            },
            None => {
                let mut rate = self.new_peer_rate;
                let new_peer_sample = rate.feed(stamp);
                self.new_peer_rate = rate;
                let mut peer = PeerState::new(addr);
                let pkg_sample = peer.add_event(msg);
                let pkg_count = peer.pkg_rate_count();
                assert(peer.stamps() =~= seq![stamp]);
                peers.push(peer);
                proof {
                    assert(peers@.drop_last() =~= old(self).peers());
                    assert forall|a: int, b: int|
                        0 <= a < peers@.len() && 0 <= b < peers@.len() && a != b implies
                        peer_addr(#[trigger] peers@[a]) != peer_addr(#[trigger] peers@[b]) by {
                        let n = old(self).peers().len() as int;
                        if a < n && b < n {
                            assert(peer_addr(old(self).peers()[a]) != peer_addr(old(self).peers()[b]));
                        } else if a == n {
                            assert(old(self).peers()[b].spec_addr() != addr);
                        } else {
                            assert(old(self).peers()[a].spec_addr() != addr);
                        }
                    }
                    assert forall|a: int| 0 <= a < peers@.len() implies peer_ok(#[trigger] peers@[a]) by {
                        if a < old(self).peers().len() {
                            assert(peer_ok(old(self).peers()[a]));
                        }
                    }
                }
                self.peers = peers;
                Recorded { is_new_peer: true, new_peer_sample, pkg_sample, pkg_count }
            },
        }
    }

    /// When a block of the peer `addr`, starting at `stamp`, ends: `stamp`
    /// plus the peer's block timeout (`base` doubled per earlier block, at most `max`).
    pub fn block_deadline(&self, addr: NetAddr, stamp: u64, base: u128, max: u128) -> (r: Option<u128>)
        requires
            base <= DURATION_MAX_NANOS,
            max <= DURATION_MAX_NANOS,
        ensures
            match r {
                Some(d) => exists|i: int|
                    0 <= i < self.peers().len() && (#[trigger] self.peers()[i]).spec_addr() == addr && d
                        == stamp + block_timeout(self.peers()[i].blocked_count(), base, max),
                None => forall|i: int| 0 <= i < self.peers().len() ==> (#[trigger] self.peers()[i]).spec_addr() != addr,
            },
    {
        match self.find(addr) {
            Some(i) => {
                let timeout = self.peers[i].fw_block_timeout(base, max);
                Some(stamp as u128 + timeout)
            },
            None => None,
        }
    }

    /// Count one more block of the peer `addr`; returns its new count.
    pub fn note_blocked(&mut self, addr: NetAddr) -> (r: Option<u16>)
        ensures
            peers_ok(final(self).peers()),
            final(self).new_peer_rate() == old(self).new_peer_rate(),
            final(self).spec_global_limit_count() == old(self).spec_global_limit_count(),
            final(self).next_decay() == old(self).next_decay(),
            final(self).next_state_dump() == old(self).next_state_dump(),
            final(self).peers().len() == old(self).peers().len(),
            block_noted(old(self).peers(), final(self).peers(), addr, r),
    {
        proof {
            use_type_invariant(&*self);
        }
        let mut peers: Vec<PeerState> = Vec::new();
        std::mem::swap(&mut peers, &mut self.peers);
        match find_peer(&peers, addr) {
            Some(i) => {
                let mut peer = peers.remove(i);
                let c = peer.blocked();
                peers.insert(i, peer);
                proof {
                    assert forall|j: int| 0 <= j < old(self).peers().len() && j != i implies peers@[j] == old(self).peers()[j] by {
                    }
                    assert forall|a: int, b: int|
                        0 <= a < peers@.len() && 0 <= b < peers@.len() && a != b implies
                        peer_addr(#[trigger] peers@[a]) != peer_addr(#[trigger] peers@[b]) by {
                        assert(peer_addr(old(self).peers()[a]) != peer_addr(old(self).peers()[b]));
                    }
                    assert forall|a: int| 0 <= a < peers@.len() implies peer_ok(#[trigger] peers@[a]) by {
                        assert(peer_ok(old(self).peers()[a]));
                    }
                }
                self.peers = peers;
                Some(c)
            },
            None => {
                self.peers = peers;
                None
            },
        }
    }

    /// The number of samples of the new peer rate counter.
    pub fn new_peer_count(&self) -> (r: usize)
        ensures
            r == self.new_peer_rate().samples(),
    {
        self.new_peer_rate.count()
    }

    /// Whether a request may lead to the global limit rule (the rate of new
    /// peers decides the rest): the peer is new, was not blocked, and more
    /// than `NEWPEERRATE_WINDOW_SIZE` new peers were sampled.
    pub fn may_limit_globally(&self, is_new_peer: bool, is_blocked: bool) -> (r: bool)
        ensures
            r == (is_new_peer && !is_blocked && self.new_peer_rate().samples() > NEWPEERRATE_WINDOW_SIZE),
    {
        is_new_peer && !is_blocked && self.new_peer_rate.count() > NEWPEERRATE_WINDOW_SIZE
    }

    /// Count one more installed global limit rule (saturating).
    pub fn note_global_limit(&mut self)
        ensures
            final(self).peers() == old(self).peers(),
            final(self).new_peer_rate() == old(self).new_peer_rate(),
            final(self).next_decay() == old(self).next_decay(),
            final(self).next_state_dump() == old(self).next_state_dump(),
            final(self).spec_global_limit_count() == if old(self).spec_global_limit_count() == u32::MAX {
                u32::MAX as int
            } else {
                old(self).spec_global_limit_count() + 1
            },
    {
        proof {
            use_type_invariant(&*self);
        }
        if self.global_limit_count < u32::MAX {
            self.global_limit_count = self.global_limit_count + 1;
        }
    }

    /// The number of installed global limit rules.
    pub fn global_limit_count(&self) -> (r: u32)
        ensures
            r == self.spec_global_limit_count(),
    {
        self.global_limit_count
    }

    /// Take in the firewall's answer to blocking the peer `addr` (`None` where
    /// the request failed): the peer counts as blocked on any answer, and a
    /// block is counted only where a new rule went in; returns whether the
    /// peer is blocked and, for a new rule, its new block count.
    pub fn block_outcome(&mut self, addr: NetAddr, outcome: Option<FirewallAdded>) -> (r: (bool, Option<u16>))
        ensures
            peers_ok(final(self).peers()),
            r.0 == (outcome is Some),
            final(self).new_peer_rate() == old(self).new_peer_rate(),
            final(self).spec_global_limit_count() == old(self).spec_global_limit_count(),
            final(self).next_decay() == old(self).next_decay(),
            final(self).next_state_dump() == old(self).next_state_dump(),
            outcome == Some(FirewallAdded::NewEntry) ==> block_noted(old(self).peers(), final(self).peers(), addr, r.1),
            outcome != Some(FirewallAdded::NewEntry) ==> final(self).peers() == old(self).peers() && r.1 is None,
    {
        proof {
            use_type_invariant(&*self);
        }
        match outcome {
            Some(FirewallAdded::NewEntry) => (true, self.note_blocked(addr)),
            Some(FirewallAdded::ExistedAlready) => (true, None),
            None => (false, None),
        }
    }

    /// Take in the firewall's answer to installing the global limit rule
    /// (`None` where the request failed): the rule is counted only where it
    /// went in new; returns whether it did.
    pub fn global_limit_outcome(&mut self, outcome: Option<FirewallAdded>) -> (r: bool)
        ensures
            r == (outcome == Some(FirewallAdded::NewEntry)),
            final(self).peers() == old(self).peers(),
            final(self).new_peer_rate() == old(self).new_peer_rate(),
            final(self).next_decay() == old(self).next_decay(),
            final(self).next_state_dump() == old(self).next_state_dump(),
            final(self).spec_global_limit_count() == if r && old(self).spec_global_limit_count() < u32::MAX {
                old(self).spec_global_limit_count() + 1
            } else {
                old(self).spec_global_limit_count() as int
            },
    {
        match outcome {
            Some(FirewallAdded::NewEntry) => {
                self.note_global_limit();
                true
            },
            _ => false,
        }
    }

    /// Whether the scores are due to decay at `now`; if so, the next decay is
    /// due `interval` later.
    pub fn decay_due(&mut self, now: u64, interval: u128) -> (r: bool)
        requires
            interval <= DURATION_MAX_NANOS,
        ensures
            r == (now >= old(self).next_decay()),
            final(self).next_decay() == if r { now + interval } else { old(self).next_decay() as int },
            final(self).peers() == old(self).peers(),
            final(self).new_peer_rate() == old(self).new_peer_rate(),
            final(self).spec_global_limit_count() == old(self).spec_global_limit_count(),
            final(self).next_state_dump() == old(self).next_state_dump(),
    {
        proof {
            use_type_invariant(&*self);
        }
        if now as u128 >= self.next_decay {
            self.next_decay = now as u128 + interval;
            true
        } else {
            false
        }
    }

    /// Whether the state report is due at `now`; if so, the next one is due
    /// `STATE_DUMP_INTERVAL` later.
    pub fn state_dump_due(&mut self, now: u64) -> (r: bool)
        ensures
            r == (now >= old(self).next_state_dump()),
            final(self).next_state_dump() == if r { now + STATE_DUMP_INTERVAL } else { old(self).next_state_dump() as int },
            final(self).peers() == old(self).peers(),
            final(self).new_peer_rate() == old(self).new_peer_rate(),
            final(self).spec_global_limit_count() == old(self).spec_global_limit_count(),
            final(self).next_decay() == old(self).next_decay(),
    {
        proof {
            use_type_invariant(&*self);
        }
        if now as u128 >= self.next_state_dump {
            self.next_state_dump = now as u128 + STATE_DUMP_INTERVAL;
            true
        } else {
            false
        }
    }

    /// Forget the peers that were silent for `peer_timeout` up to `now`;
    /// returns them, in table order.
    pub fn expire(&mut self, peer_timeout: u128, now: u64) -> (r: Vec<PeerState>)
        ensures
            peers_ok(final(self).peers()),
            final(self).peers() == old(self).peers().filter(|p: PeerState| !(elapsed(now, p.touched()) >= peer_timeout)),
            r@ == old(self).peers().filter(|p: PeerState| elapsed(now, p.touched()) >= peer_timeout),
            final(self).new_peer_rate() == old(self).new_peer_rate(),
            final(self).spec_global_limit_count() == old(self).spec_global_limit_count(),
            final(self).next_decay() == old(self).next_decay(),
            final(self).next_state_dump() == old(self).next_state_dump(),
    {
        proof {
            use_type_invariant(&*self);
        }
        let ghost keep = |p: PeerState| !(elapsed(now, p.touched()) >= peer_timeout);
        let ghost gone = |p: PeerState| elapsed(now, p.touched()) >= peer_timeout;
        let ghost all = old(self).peers();
        let mut kept: Vec<PeerState> = Vec::new();
        let mut timed_out: Vec<PeerState> = Vec::new();
        let mut taken: Vec<PeerState> = Vec::new();
        std::mem::swap(&mut taken, &mut self.peers);
        let mut rest: Vec<PeerState> = Vec::new();
        while taken.len() > 0
            invariant
                taken@.len() + rest@.len() == all.len(),
                taken@ == all.take(taken@.len() as int),
                forall|k: int| 0 <= k < rest@.len() ==> rest@[k] == all[all.len() - 1 - k],
            decreases taken@.len(),
        {
            let ghost n = taken@.len();
            let q = taken.pop().unwrap();
            proof {
                assert(q == all[n - 1]);
                assert(taken@ =~= all.take(n - 1));
            }
            rest.push(q);
        }
        proof {
            lemma_filter_take_ends(all, keep);
            lemma_filter_take_ends(all, gone);
        }
        while rest.len() > 0
            invariant
                rest@.len() <= all.len(),
                forall|k: int| 0 <= k < rest@.len() ==> rest@[k] == all[all.len() - 1 - k],
                forall|k: int| 0 <= k < all.len() ==> peer_ok(#[trigger] all[k]),
                keep == (|p: PeerState| !(elapsed(now, p.touched()) >= peer_timeout)),
                gone == (|p: PeerState| elapsed(now, p.touched()) >= peer_timeout),
                kept@ == all.take(all.len() - rest@.len()).filter(keep),
                timed_out@ == all.take(all.len() - rest@.len()).filter(gone),
            decreases rest@.len(),
        {
            let ghost i = all.len() - rest@.len();
            let p = rest.pop().unwrap();
            proof {
                assert(p == all[i]);
                assert(peer_ok(all[i]));
                lemma_filter_take_step(all, keep, i);
                lemma_filter_take_step(all, gone, i);
            }
            if p.is_timed_out(peer_timeout, now) {
                timed_out.push(p);
            } else {
                kept.push(p);
            }
        }
        proof {
            lemma_filter_take_ends(all, keep);
            lemma_filter_distinct(all, keep, |p: PeerState| peer_addr(p));
        }
        proof {
            assert forall|a: int| 0 <= a < kept@.len() implies peer_ok(#[trigger] kept@[a]) by {
                assert(all.filter(keep).contains(kept@[a]));
            }
        }
        self.peers = kept;
        timed_out
    }
}

/// The index of a peer with the oldest last-touched time above `floor`, the
/// last such peer where several share it; `None` where no time lies above.
fn next_candidate(peers: &Vec<PeerState>, floor: Option<u64>) -> (r: Option<usize>)
    requires
        forall|i: int| 0 <= i < peers@.len() ==> peer_ok(#[trigger] peers@[i]),
    ensures
        match r {
            Some(i) => {
                &&& i < peers@.len()
                &&& above(peers@[i as int].touched(), floor)
                &&& forall|j: int| 0 <= j < peers@.len() && above((#[trigger] peers@[j]).touched(), floor) ==> peers@[j].touched() >= peers@[i as int].touched()
            },
            None => forall|j: int| 0 <= j < peers@.len() ==> !above((#[trigger] peers@[j]).touched(), floor),
        },
{
    let mut best: Option<usize> = None;
    let mut best_time: u64 = 0;
    let mut i: usize = 0;
    while i < peers.len()
        invariant
            i <= peers@.len(),
            forall|k: int| 0 <= k < peers@.len() ==> peer_ok(#[trigger] peers@[k]),
            match best {
                Some(b) => {
                    &&& b < i
                    &&& best_time == peers@[b as int].touched()
                    &&& above(best_time, floor)
                    &&& forall|j: int| 0 <= j < i && above((#[trigger] peers@[j]).touched(), floor) ==> peers@[j].touched() >= best_time
                },
                None => forall|j: int| 0 <= j < i ==> !above((#[trigger] peers@[j]).touched(), floor),
            },
        decreases peers@.len() - i,
    {
        proof {
            assert(peer_ok(peers@[i as int]));
        }
        let t = peers[i].last_touched_time(0);
        let is_above = match floor {
            Some(f) => t > f,
            None => true,
        };
        if is_above {
            let better = match best {
                Some(_) => t <= best_time,
                None => true,
            };
            if better {
                best = Some(i);
                best_time = t;
            }
        }
        i = i + 1;
    }
    best
}

/// The number of peers that pruning keeps: 95 % of `max_num_peers`, rounded down.
pub fn prune_target(max_num_peers: usize) -> (r: usize)
    ensures
        r == max_num_peers * 95 / 100,
        r <= max_num_peers,
{
    let q = max_num_peers / 100;
    let m = max_num_peers % 100;
    proof {
        let n = max_num_peers as int;
        assert(n == 100 * (q as int) + (m as int) && 0 <= m < 100) by (nonlinear_arith)
            requires
                q == n / 100,
                m == n % 100,
                n >= 0,
        ;
        assert(n * 95 / 100 == 95 * (q as int) + (m as int) * 95 / 100) by (nonlinear_arith)
            requires
                n == 100 * (q as int) + (m as int),
                0 <= m < 100,
                q >= 0,
        ;
        assert(95 * (q as int) + (m as int) * 95 / 100 <= n) by (nonlinear_arith)
            requires
                n == 100 * (q as int) + (m as int),
                0 <= m < 100,
                q >= 0,
        ;
    }
    q * 95 + m * 95 / 100
}

impl PeerTable {
    /// Where more than `max_num_peers` peers are held, forget the least
    /// recently touched ones, one per distinct last-touched time, until 95 %
    /// of `max_num_peers` remain; returns the forgotten peers.
    #[verifier::rlimit(50)]
    #[verifier::spinoff_prover]
    pub fn prune(&mut self, max_num_peers: usize) -> (r: Vec<PeerState>)
        ensures
            peers_ok(final(self).peers()),
            final(self).new_peer_rate() == old(self).new_peer_rate(),
            final(self).spec_global_limit_count() == old(self).spec_global_limit_count(),
            final(self).next_decay() == old(self).next_decay(),
            final(self).next_state_dump() == old(self).next_state_dump(),
            old(self).peers().len() <= max_num_peers ==> final(self).peers() == old(self).peers()
                && r@.len() == 0,
            old(self).peers().len() > max_num_peers ==> pruned(
                old(self).peers(),
                final(self).peers(),
                r@,
                max_num_peers * 95 / 100,
            ),
            old(self).peers().len() > max_num_peers ==> final(self).peers().len() >= max_num_peers * 95 / 100,
            old(self).peers().len() <= max_num_peers + 1 ==> final(self).peers().len() <= max_num_peers,
    {
        proof {
            use_type_invariant(&*self);
        }
        let mut removed: Vec<PeerState> = Vec::new();
        if self.peers.len() <= max_num_peers {
            return removed;
        }
        let reduce_to: usize = prune_target(max_num_peers);
        let ghost all = old(self).peers();
        let mut peers: Vec<PeerState> = Vec::new();
        std::mem::swap(&mut peers, &mut self.peers);
        let mut floor: Option<u64> = None;
        loop
            invariant
                peers_ok(old(self).peers()),
                all == old(self).peers(),
                all.len() > max_num_peers,
                reduce_to == max_num_peers * 95 / 100,
                reduce_to <= max_num_peers,
                self.new_peer_rate == old(self).new_peer_rate,
                self.global_limit_count == old(self).global_limit_count,
                self.next_decay == old(self).next_decay,
                self.next_state_dump == old(self).next_state_dump,
                peers_ok(peers@),
                peers@.to_multiset().add(removed@.to_multiset()) == all.to_multiset(),
                forall|i: int, j: int|
                    0 <= i < j < removed@.len() ==> (#[trigger] removed@[i]).touched() < (
                    #[trigger] removed@[j]).touched(),
                removed@.len() == 0 ==> floor is None && peers@ == all,
                peers@.len() >= reduce_to,
                removed@.len() > 0 ==> floor == Some(removed@.last().touched()),
                forall|p: PeerState|
                    #[trigger] all.contains(p) && floor is Some && p.touched() <= floor->0 ==> exists|k: int|
                        0 <= k < removed@.len() && (#[trigger] removed@[k]).touched() == p.touched(),
                forall|k: int| 0 <= k < removed@.len() ==> all.contains(#[trigger] removed@[k]),
            ensures
                peers_ok(peers@),
                peers@.to_multiset().add(removed@.to_multiset()) == all.to_multiset(),
                peers@.len() >= reduce_to,
                removed@.len() >= 1,
                forall|i: int, j: int|
                    0 <= i < j < removed@.len() ==> (#[trigger] removed@[i]).touched() < (
                    #[trigger] removed@[j]).touched(),
                forall|p: PeerState|
                    #[trigger] all.contains(p) && p.touched() <= removed@.last().touched() ==> exists|k: int|
                        0 <= k < removed@.len() && (#[trigger] removed@[k]).touched() == p.touched(),
                peers@.len() <= reduce_to || forall|p: PeerState|
                    #[trigger] all.contains(p) ==> p.touched() <= removed@.last().touched(),
                self.new_peer_rate == old(self).new_peer_rate,
                self.global_limit_count == old(self).global_limit_count,
                self.next_decay == old(self).next_decay,
                self.next_state_dump == old(self).next_state_dump,
            decreases peers@.len(),
        {
            if peers.len() <= reduce_to {
                break;
            }
            match next_candidate(&peers, floor) {
                None => {
                    proof {
                        if removed@.len() == 0 {
                            assert(above(peers@[0].touched(), floor));
                        }
                        assert forall|p: PeerState| #[trigger] all.contains(p) implies p.touched() <= removed@.last().touched() by {
                            assert(all.to_multiset().count(p) > 0);
                            if peers@.to_multiset().count(p) > 0 {
                                assert(peers@.contains(p));
                                let j = choose|j: int| 0 <= j < peers@.len() && peers@[j] == p;
                                assert(!above(peers@[j].touched(), floor));
                            } else {
                                assert(removed@.to_multiset().count(p) > 0);
                                assert(removed@.contains(p));
                                let k = choose|k: int| 0 <= k < removed@.len() && removed@[k] == p;
                                if k < removed@.len() - 1 {
                                    assert(removed@[k].touched() < removed@[removed@.len() - 1].touched());
                                }
                            }
                        }
                    }
                    break;
                },
                Some(i) => {
                    let ghost cur = peers@;
                    let ghost old_removed = removed@;
                    let p = peers.remove(i);
                    let t = p.last_touched_time(0);
                    proof {
                        assert(peer_ok(cur[i as int]));
                        assert(cur.remove(i as int).to_multiset() == cur.to_multiset().remove(cur[i as int]));
                        assert(old_removed.push(p).to_multiset() == old_removed.to_multiset().insert(p));
                        assert(cur.to_multiset().count(p) > 0);
                        assert(peers@.to_multiset().add(old_removed.push(p).to_multiset()) =~= all.to_multiset());
                        assert(all.to_multiset().count(p) > 0);
                    }
                    removed.push(p);
                    floor = Some(t);
                    proof {
                        assert(removed@.last() == p);
                        assert forall|a: int, b: int|
                            0 <= a < peers@.len() && 0 <= b < peers@.len() && a != b implies
                            peer_addr(#[trigger] peers@[a]) != peer_addr(#[trigger] peers@[b]) by {
                            let a0 = if a < i { a } else { a + 1 };
                            let b0 = if b < i { b } else { b + 1 };
                            assert(peers@[a] == cur[a0] && peers@[b] == cur[b0]);
                            assert(peer_addr(cur[a0]) != peer_addr(cur[b0]));
                        }
                        assert forall|a: int| 0 <= a < peers@.len() implies peer_ok(#[trigger] peers@[a]) by {
                            let a0 = if a < i { a } else { a + 1 };
                            assert(peers@[a] == cur[a0]);
                            assert(peer_ok(cur[a0]));
                        }
                        assert forall|x: int, y: int|
                            0 <= x < y < removed@.len() implies (#[trigger] removed@[x]).touched() < (
                            #[trigger] removed@[y]).touched() by {
                            if y < removed@.len() - 1 {
                                assert(removed@[x] == old_removed[x] && removed@[y] == old_removed[y]);
                            } else {
                                assert(removed@[x] == old_removed[x]);
                                if x < old_removed.len() - 1 {
                                    assert(old_removed[x].touched() < old_removed.last().touched());
                                }
                            }
                        }
                        assert forall|q: PeerState|
                            #[trigger] all.contains(q) && floor is Some && q.touched() <= floor->0 implies exists|k: int|
                                0 <= k < removed@.len() && (#[trigger] removed@[k]).touched() == q.touched() by {
                            if old_removed.len() > 0 && q.touched() <= old_removed.last().touched() {
                                let k = choose|k: int| 0 <= k < old_removed.len() && (#[trigger] old_removed[k]).touched() == q.touched();
                                assert(removed@[k] == old_removed[k]);
                            } else {
                                assert(all.to_multiset().count(q) > 0);
                                if cur.to_multiset().count(q) > 0 {
                                    assert(cur.contains(q));
                                    let j = choose|j: int| 0 <= j < cur.len() && cur[j] == q;
                                    assert(above(cur[j].touched(), if old_removed.len() > 0 { Some(old_removed.last().touched()) } else { None }));
                                    assert(removed@[removed@.len() - 1].touched() == q.touched());
                                } else {
                                    assert(old_removed.to_multiset().count(q) > 0);
                                    assert(old_removed.contains(q));
                                    let k = choose|k: int| 0 <= k < old_removed.len() && old_removed[k] == q;
                                    if k < old_removed.len() - 1 {
                                        assert(old_removed[k].touched() < old_removed.last().touched());
                                    }
                                    assert(false);
                                }
                            }
                        }
                        assert forall|k: int| 0 <= k < removed@.len() implies all.contains(#[trigger] removed@[k]) by {
                            if k < old_removed.len() {
                                assert(removed@[k] == old_removed[k]);
                            }
                        }
                    }
                },
            }
        }
        self.peers = peers;
        proof {
            assert(self.peers@.len() + removed@.len() == all.len()) by {
                assert(self.peers@.to_multiset().add(removed@.to_multiset()).len() == all.to_multiset().len());
            }
        }
        removed
    }
}

/// `path` starts with one of the allowed prefixes.
pub open spec fn path_allowed(allowlist: Seq<Seq<char>>, path: Seq<char>) -> bool {
    exists|i: int| 0 <= i < allowlist.len() && (#[trigger] allowlist[i]).is_prefix_of(path)
}

/// `prefix` starts `s`.
fn starts_with(s: &Vec<char>, prefix: &Vec<char>) -> (r: bool)
    ensures
        r == prefix@.is_prefix_of(s@),
{
    if prefix.len() > s.len() {
        return false;
    }
    let mut k: usize = 0;
    while k < prefix.len()
        invariant
            k <= prefix@.len() <= s@.len(),
            forall|j: int| 0 <= j < k ==> prefix@[j] == s@[j],
        decreases prefix@.len() - k,
    {
        if prefix[k] != s[k] {
            return false;
        }
        k = k + 1;
    }
    true
}

/// Requests on a path that starts with an entry of the allowlist are not
/// classified.
pub fn is_path_allowed(allowlist: &Vec<String>, path: &str) -> (r: bool)
    ensures
        r == path_allowed(allowlist@.map_values(|s: String| s@), path@),
{
    let ghost view = allowlist@.map_values(|s: String| s@);
    let p = crate::message::chars_of(path);
    let mut i: usize = 0;
    while i < allowlist.len()
        invariant
            i <= allowlist@.len(),
            p@ == path@,
            view == allowlist@.map_values(|s: String| s@),
            forall|j: int| 0 <= j < i ==> !(#[trigger] view[j]).is_prefix_of(path@),
        decreases allowlist@.len() - i,
    {
        let prefix = crate::message::chars_of(allowlist[i].as_str());
        if starts_with(&p, &prefix) {
            assert(view[i as int] == allowlist@[i as int]@);
            return true;
        }
        i = i + 1;
    }
    false
}

} // verus!