//! The bounded per-peer event history.

use vstd::prelude::*;
use arraydeque::{ArrayDeque, Wrapping};

verus! {

/// How many events each peer remembers.
pub const EVENTQ_SIZE: usize = 128;

/// One request of a peer, at `stamp` nanoseconds on the daemon's clock.
#[derive(Clone, Copy, Debug, PartialEq, Eq, Structural)]
pub struct PeerEvent {
    pub stamp: u64,
}

impl PeerEvent {
    pub fn new(stamp: u64) -> (r: Self)
        ensures
            r.stamp == stamp,
    {
        Self { stamp }
    }
}

/// A wrapping `ArrayDeque` of event stamps with room for `EVENTQ_SIZE` items.
#[verifier::external_body]
#[derive(Debug)]
pub struct StampDeque {
    dq: ArrayDeque<u64, EVENTQ_SIZE, Wrapping>,
}

/// The stamps held by an event deque, front first.
pub uninterp spec fn deque_stamps(d: StampDeque) -> Seq<u64>;

/// `ArrayDeque::new`: an empty deque.
#[verifier::external_body]
fn deque_new() -> (d: StampDeque)
    ensures
        deque_stamps(d) == Seq::<u64>::empty(),
{
    StampDeque { dq: ArrayDeque::new() }
}

/// `ArrayDeque::push_back` with wrapping behavior: appends; where the deque
/// is full, the front item leaves first and comes back.
#[verifier::external_body]
fn deque_push_back(d: &mut StampDeque, stamp: u64) -> (r: Option<u64>)
    requires
        deque_stamps(*old(d)).len() <= EVENTQ_SIZE,
    ensures
        deque_stamps(*old(d)).len() == EVENTQ_SIZE ==> {
            &&& deque_stamps(*final(d)) == deque_stamps(*old(d)).drop_first().push(stamp)
            &&& r == Some(deque_stamps(*old(d))[0])
        },
        deque_stamps(*old(d)).len() < EVENTQ_SIZE ==> {
            &&& deque_stamps(*final(d)) == deque_stamps(*old(d)).push(stamp)
            &&& r is None
        },
{
    d.dq.push_back(stamp)
}

/// `ArrayDeque::back`: the last item.
#[verifier::external_body]
fn deque_back(d: &StampDeque) -> (r: Option<u64>)
    ensures
        r == if deque_stamps(*d).len() == 0 {
            None
        } else {
            Some(deque_stamps(*d).last())
        },
{
    d.dq.back().copied()
}

/// `ArrayDeque::len`: the number of items.
#[verifier::external_body]
fn deque_len(d: &StampDeque) -> (r: usize)
    ensures
        r == deque_stamps(*d).len(),
{
    d.dq.len()
}

/// The stamps after `stamp` was appended to the history `s`: the latest
/// `EVENTQ_SIZE` stamps.
pub open spec fn pushed_stamps(s: Seq<u64>, stamp: u64) -> Seq<u64> {
    if s.len() >= EVENTQ_SIZE {
        s.drop_first().push(stamp)
    } else {
        s.push(stamp)
    }
}

/// The last `EVENTQ_SIZE` events of a peer, oldest first.
#[derive(Debug)]
pub struct EventQueue {
    dq: StampDeque,
}

impl View for EventQueue {
    type V = Seq<u64>;

    closed spec fn view(&self) -> Seq<u64> {
        deque_stamps(self.dq)
    }
}

impl EventQueue {
    /// At most `EVENTQ_SIZE` events are held.
    #[verifier::type_invariant]
    pub(crate) open spec fn bounded(&self) -> bool {
        self@.len() <= EVENTQ_SIZE
    }

    pub fn new() -> (r: Self)
        ensures
            r@ == Seq::<u64>::empty(),
    {
        Self { dq: deque_new() }
    }

    /// Append an event; the oldest one leaves where `EVENTQ_SIZE` are held.
    pub fn push_back(&mut self, event: PeerEvent)
        ensures
            final(self)@ == pushed_stamps(old(self)@, event.stamp),
    {
        proof {
            use_type_invariant(&*self);
            lemma_pushed_stamps(self@, event.stamp);
        }
        let mut dq = deque_new();
        std::mem::swap(&mut dq, &mut self.dq);
        let _ = deque_push_back(&mut dq, event.stamp);
        self.dq = dq;
    }

    /// The latest event.
    pub fn back(&self) -> (r: Option<PeerEvent>)
        ensures
            r == if self@.len() == 0 {
                None
            } else {
                Some(PeerEvent { stamp: self@.last() })
            },
    {
        match deque_back(&self.dq) {
            Some(stamp) => Some(PeerEvent::new(stamp)),
            None => None,
        }
    }

    /// The number of remembered events, at most `EVENTQ_SIZE`.
    pub fn len(&self) -> (r: usize)
        ensures
            r == self@.len(),
            r <= EVENTQ_SIZE,
    {
        proof {
            use_type_invariant(self);
        }
        deque_len(&self.dq)
    }
}

/// The history keeps the latest events: after a push the newest stamp is
/// last, nothing beyond `EVENTQ_SIZE` is kept, and the stamps before it are
/// the latest ones of the history before.
pub proof fn lemma_pushed_stamps(s: Seq<u64>, stamp: u64)
    requires
        s.len() <= EVENTQ_SIZE,
    ensures
        pushed_stamps(s, stamp).len() <= EVENTQ_SIZE,
        pushed_stamps(s, stamp).len() >= 1,
        pushed_stamps(s, stamp).last() == stamp,
        pushed_stamps(s, stamp) == (s.push(stamp)).subrange(
            s.push(stamp).len() - pushed_stamps(s, stamp).len(),
            s.push(stamp).len() as int,
        ),
        pushed_stamps(s, stamp).len() == if s.len() + 1 <= EVENTQ_SIZE {
            s.len() + 1
        } else {
            EVENTQ_SIZE as nat
        },
{
    assert(pushed_stamps(s, stamp) =~= (s.push(stamp)).subrange(
        s.push(stamp).len() - pushed_stamps(s, stamp).len(),
        s.push(stamp).len() as int,
    ));
}

} // verus!
