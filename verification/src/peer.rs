//! What the daemon keeps of one peer, apart from its floating point meters.

use vstd::prelude::*;
use vstd::arithmetic::power2::pow2;
use crate::config::DURATION_MAX_NANOS;
use crate::events::{pushed_stamps, EventQueue, PeerEvent, lemma_pushed_stamps};
use crate::message::Message;
use crate::netaddr::NetAddr;
use crate::rate::{sample_at, sat_inc_u16, Rate, RateSample};

verus! {

/// The block timeout after `blocked_count` earlier blocks: the base timeout
/// doubled per block (at most 31 times), never above `max`.
pub open spec fn block_timeout(blocked_count: u16, base: u128, max: u128) -> int {
    let fact = pow2(if blocked_count < 31 { blocked_count as nat } else { 31 });
    if base * fact >= max {
        max as int
    } else {
        base * fact
    }
}

/// `a - b`, or zero where `b` is later.
pub open spec fn elapsed(now: u64, then: u64) -> int {
    if now >= then {
        now - then
    } else {
        0
    }
}

/// One peer: its address, its latest events, its packet rate counter and
/// how often it was blocked.
#[derive(Debug)]
pub struct PeerState {
    addr: NetAddr,
    events: EventQueue,
    pkg_rate: Rate,
    blocked_count: u16,
}

impl PeerState {
    pub closed spec fn spec_addr(&self) -> NetAddr {
        self.addr
    }

    /// The stamps of the latest events, oldest first.
    pub closed spec fn stamps(&self) -> Seq<u64> {
        self.events@
    }

    /// The packet rate counter.
    pub closed spec fn pkg_rate(&self) -> Rate {
        self.pkg_rate
    }

    /// How often the peer was blocked (saturating).
    pub closed spec fn blocked_count(&self) -> u16 {
        self.blocked_count
    }

    /// The time of the latest event.
    pub open spec fn touched(&self) -> u64 {
        self.stamps().last()
    }

    /// A new peer without events.
    pub fn new(addr: NetAddr) -> (r: Self)
        ensures
            r.spec_addr() == addr,
            r.stamps() == Seq::<u64>::empty(),
            r.pkg_rate().prev() is None,
            r.pkg_rate().samples() == 0,
            r.blocked_count() == 0,
    {
        Self { addr, events: EventQueue::new(), pkg_rate: Rate::new(), blocked_count: 0 }
    }

    pub fn addr(&self) -> (r: NetAddr)
        ensures
            r == self.spec_addr(),
    {
        self.addr
    }

    /// The latest event.
    pub fn last_event(&self) -> (r: Option<PeerEvent>)
        ensures
            r == if self.stamps().len() == 0 {
                None
            } else {
                Some(PeerEvent { stamp: self.touched() })
            },
    {
        self.events.back()
    }

    /// The time of the latest event, or `now` where there is none.
    pub fn last_touched_time(&self, now: u64) -> (r: u64)
        ensures
            r == if self.stamps().len() == 0 {
                now
            } else {
                self.touched()
            },
    {
        match self.last_event() {
            Some(last) => last.stamp,
            None => now,
        }
    }

    /// The number of samples of the packet rate counter.
    pub fn pkg_rate_count(&self) -> (r: usize)
        ensures
            r == self.pkg_rate().samples(),
    {
        self.pkg_rate.count()
    }

    /// Record the request `msg`; returns the sample for the packet rate average.
    pub fn add_event(&mut self, msg: &Message) -> (r: Option<RateSample>)
        ensures
            final(self).spec_addr() == old(self).spec_addr(),
            final(self).blocked_count() == old(self).blocked_count(),
            final(self).stamps() == pushed_stamps(old(self).stamps(), msg.spec_stamp()),
            final(self).stamps().len() >= 1,
            final(self).touched() == msg.spec_stamp(),
            r == sample_at(old(self).pkg_rate().prev(), msg.spec_stamp()),
            r is Some ==> final(self).pkg_rate().prev() == Some(msg.spec_stamp())
                && final(self).pkg_rate().samples() == sat_inc_u16(old(self).pkg_rate().samples()),
            r is None ==> final(self).pkg_rate() == old(self).pkg_rate(),
    {
        let stamp = msg.stamp();
        proof {
            use_type_invariant(&self.events);
            lemma_pushed_stamps(self.events@, stamp);
        }
        let sample = self.pkg_rate.feed(stamp);
        self.events.push_back(PeerEvent::new(stamp));
        sample
    }

    /// Count one more block of this peer; returns the new count.
    pub fn blocked(&mut self) -> (r: u16)
        ensures
            r == sat_inc_u16(old(self).blocked_count()),
            final(self).blocked_count() == r,
            final(self).spec_addr() == old(self).spec_addr(),
            final(self).stamps() == old(self).stamps(),
            final(self).pkg_rate() == old(self).pkg_rate(),
    {
        if self.blocked_count < u16::MAX {
            self.blocked_count = self.blocked_count + 1;
        }
        self.blocked_count
    }

    /// How long to block this peer: `base` doubled per earlier block, at most `max`.
    pub fn fw_block_timeout(&self, base: u128, max: u128) -> (r: u128)
        requires
            base <= DURATION_MAX_NANOS,
            max <= DURATION_MAX_NANOS,
        ensures
            r == block_timeout(self.blocked_count(), base, max),
            r <= max,
            self.blocked_count() < 31 && base * pow2(self.blocked_count() as nat) < max ==> r == base * pow2(
                self.blocked_count() as nat,
            ),
            self.blocked_count() < 31 && base * pow2(self.blocked_count() as nat) >= max ==> r == max,
            self.blocked_count() >= 31 ==> r == (if base * pow2(31) < max { base * pow2(31) } else { max as int }),
    {
        let shift: u32 = if self.blocked_count < 31 { self.blocked_count as u32 } else { 31 };
        proof {
            vstd::bits::lemma_u32_pow2_no_overflow(shift as nat);
            vstd::bits::lemma_u32_shl_is_mul(1u32, shift);
        }
        let fact: u32 = 1u32 << shift;
        assert(fact == pow2(shift as nat));
        proof {
            assert(base * fact <= DURATION_MAX_NANOS * 0x1_0000_0000) by (nonlinear_arith)
                requires
                    base <= DURATION_MAX_NANOS,
                    fact <= 0xffff_ffff,
            ;
        }
        // A `Duration` product saturates at the longest span.
        let product: u128 = base * fact as u128;
        let timeout: u128 = if product > DURATION_MAX_NANOS { DURATION_MAX_NANOS } else { product };
        if timeout >= max {
            max
        } else {
            timeout
        }
    }

    /// No event for `peer_timeout` up to `now`.
    pub fn is_timed_out(&self, peer_timeout: u128, now: u64) -> (r: bool)
        requires
            self.stamps().len() > 0,
        ensures
            r == (elapsed(now, self.touched()) >= peer_timeout),
    {
        match self.last_event() {
            Some(last) => {
                let age: u64 = if now >= last.stamp { now - last.stamp } else { 0 };
                age as u128 >= peer_timeout
            },
            None => false,
        }
    }
}

/// The block timeout grows with the number of blocks and never passes `max`.
pub proof fn lemma_block_timeout_monotone(c1: u16, c2: u16, base: u128, max: u128)
    requires
        c1 <= c2,
        max <= DURATION_MAX_NANOS,
    ensures
        block_timeout(c1, base, max) <= block_timeout(c2, base, max),
        block_timeout(c2, base, max) <= max,
{
    let e1: nat = if c1 < 31 { c1 as nat } else { 31 };
    let e2: nat = if c2 < 31 { c2 as nat } else { 31 };
    if e1 < e2 {
        vstd::arithmetic::power2::lemma_pow2_strictly_increases(e1, e2);
    }
    assert(base * pow2(e1) <= base * pow2(e2)) by (nonlinear_arith)
        requires
            pow2(e1) <= pow2(e2),
    ;
}

/// A block lasts `base` doubled once per earlier block, for up to 31
/// doublings, and never longer than `max`: below `max`, each further block
/// doubles the timeout, and from the 31st block on it stays the same.
pub proof fn lemma_block_timeout_doubling(c: u16, base: u128, max: u128)
    ensures
        c < 31 && base * pow2(c as nat) < max ==> block_timeout(c, base, max) == base * pow2(c as nat),
        c < 31 && base * pow2(c as nat) >= max ==> block_timeout(c, base, max) == max,
        c >= 31 ==> block_timeout(c, base, max) == block_timeout(31, base, max),
        c < 31 && base * pow2((c + 1) as nat) < max ==> block_timeout((c + 1) as u16, base, max) == 2
            * block_timeout(c, base, max),
        block_timeout(c, base, max) <= max,
{
    if c < 31 {
        vstd::arithmetic::power2::lemma_pow2_unfold((c + 1) as nat);
        assert(base * pow2((c + 1) as nat) == 2 * (base * pow2(c as nat))) by (nonlinear_arith)
            requires
                pow2((c + 1) as nat) == 2 * pow2(c as nat),
        ;
        if base * pow2((c + 1) as nat) < max {
            assert(base * pow2(c as nat) <= base * pow2((c + 1) as nat)) by (nonlinear_arith)
                requires
                    pow2((c + 1) as nat) == 2 * pow2(c as nat),
            ;
        }
    }
}

} // verus!
