//! The firewall's bookkeeping: which peers are blocked until when, and the
//! global limit rule.

use vstd::prelude::*;
use crate::config::NANOS_PER_SEC;
use crate::netaddr::{addr_text, NetAddr};
use crate::text::{decimal_text, push_radix};
use crate::seq_facts::{distinct_keys, lemma_filter_distinct, lemma_filter_take_ends, lemma_filter_take_step};
use crate::nft::{
    gen_add_global_limit_cmd, gen_add_idiot_cmd, gen_flush_cmd, handle_of, idiot_comment, is_add_global_limit_cmd,
    is_add_idiot_cmd, is_delete_cmd, is_flush_cmd, FwError, ListedRuleset, NfCmd,
};

verus! {

/// A peer to block until its timeout (nanoseconds on the daemon's clock).
#[derive(Clone, Copy, Debug, PartialEq, Eq, Structural)]
pub struct Idiot {
    pub addr: NetAddr,
    pub timeout: u128,
}

impl Idiot {
    pub fn new(addr: NetAddr, timeout: u128) -> (r: Self)
        ensures
            r.addr == addr,
            r.timeout == timeout,
    {
        Self { addr, timeout }
    }

    pub fn addr(&self) -> (r: NetAddr)
        ensures
            r == self.addr,
    {
        self.addr
    }

    /// The block has run out at `now`.
    pub fn is_timed_out(&self, now: u128) -> (r: bool)
        ensures
            r == (now >= self.timeout),
    {
        now >= self.timeout
    }

    /// `<addr> (+<secs>s)`: the address and the whole seconds of the block
    /// left at `now`.
    pub fn describe(&self, now: u128) -> (r: String)
        ensures
            r@ == addr_text(self.addr) + " (+"@ + decimal_text(remaining_secs(self.timeout, now))
                + "s)"@,
    {
        let left: u128 = if self.timeout >= now { self.timeout - now } else { 0 };
        let mut s = self.addr.to_text();
        s.append(" (+");
        push_radix(&mut s, left / NANOS_PER_SEC, 10);
        s.append("s)");
        s
    }
}

/// The whole seconds from `now` until `timeout`, zero where it has passed.
pub open spec fn remaining_secs(timeout: u128, now: u128) -> nat {
    if timeout >= now {
        ((timeout - now) / NANOS_PER_SEC as int) as nat
    } else {
        0
    }
}

/// The bit pattern of an `f32` that is NaN.
pub open spec fn f32_bits_nan(x: u32) -> bool {
    (x & 0x7f80_0000u32) == 0x7f80_0000u32 && (x & 0x007f_ffffu32) != 0
}

/// `==` on the `f32` values of two bit patterns (IEEE 754): NaN equals
/// nothing, positive and negative zero are equal, otherwise the bits decide.
pub open spec fn f32_bits_eq(x: u32, y: u32) -> bool {
    &&& !f32_bits_nan(x)
    &&& !f32_bits_nan(y)
    &&& (x == y || ((x & 0x7fff_ffffu32) == 0 && (y & 0x7fff_ffffu32) == 0))
}

/// `==` on the `f32` values of two bit patterns.
pub fn f32_bits_equal(x: u32, y: u32) -> (r: bool)
    ensures
        r == f32_bits_eq(x, y),
{
    let x_nan = (x & 0x7f80_0000u32) == 0x7f80_0000u32 && (x & 0x007f_ffffu32) != 0;
    let y_nan = (y & 0x7f80_0000u32) == 0x7f80_0000u32 && (y & 0x007f_ffffu32) != 0;
    !x_nan && !y_nan && (x == y || ((x & 0x7fff_ffffu32) == 0 && (y & 0x7fff_ffffu32) == 0))
}

/// `==` on actions: both block, or both throttle at rates that compare
/// equal as `f32`.
pub open spec fn action_eq(a: FwAction, b: FwAction) -> bool {
    match (a, b) {
        (FwAction::Block, FwAction::Block) => true,
        (FwAction::Throttle(x), FwAction::Throttle(y)) => f32_bits_eq(x, y),
        _ => false,
    }
}

/// `==` on actions, comparing throttle rates as `f32`.
pub fn action_equal(a: FwAction, b: FwAction) -> (r: bool)
    ensures
        r == action_eq(a, b),
{
    match (a, b) {
        (FwAction::Block, FwAction::Block) => true,
        (FwAction::Throttle(x), FwAction::Throttle(y)) => f32_bits_equal(x, y),
        _ => false,
    }
}

/// What the firewall does with an idiot's packets.
/// A throttle rate is held as the bit pattern of its `f32` packets per second;
/// the derived `==` compares those bits, the firewall compares with `action_equal`.
#[derive(Clone, Copy, Debug, PartialEq, Eq, Structural)]
pub enum FwAction {
    Throttle(u32),
    Block,
}

/// An idiot together with the action taken against it.
#[derive(Clone, Copy, Debug, PartialEq, Eq, Structural)]
pub struct FwIdiot {
    pub idiot: Idiot,
    pub action: FwAction,
}

impl FwIdiot {
    pub fn new(idiot: Idiot, action: FwAction) -> (r: Self)
        ensures
            r.idiot == idiot,
            r.action == action,
    {
        Self { idiot, action }
    }

    pub fn addr(&self) -> (r: NetAddr)
        ensures
            r == self.idiot.addr,
    {
        self.idiot.addr()
    }

    pub fn is_timed_out(&self, now: u128) -> (r: bool)
        ensures
            r == (now >= self.idiot.timeout),
    {
        self.idiot.is_timed_out(now)
    }
}

/// Whether adding to the firewall created something new.
#[derive(Clone, Copy, Debug, PartialEq, Eq, Structural)]
pub enum FirewallAdded {
    ExistedAlready,
    NewEntry,
}

/// The installed global limit rule: its rate (the bit pattern of the `f32`
/// packets per second and the packets per minute of the rule) and its timeout.
#[derive(Clone, Copy, Debug, PartialEq, Eq, Structural)]
pub struct GlobalLimit {
    pub rate_bits: u32,
    pub packets_per_minute: u32,
    pub timeout: u128,
}

/// The firewall's bookkeeping: the blocked idiots, each address at most once,
/// and the global limit rule, if installed.
#[derive(Debug)]
pub struct FirewallState {
    idiots: Vec<FwIdiot>,
    global_limit: Option<GlobalLimit>,
}

/// The address of an entry.
pub open spec fn idiot_addr(x: FwIdiot) -> NetAddr {
    x.idiot.addr
}

/// No address occurs twice.
pub open spec fn unique_addrs(s: Seq<FwIdiot>) -> bool {
    distinct_keys(s, |x: FwIdiot| idiot_addr(x))
}

/// `addr` occurs in `s`.
pub open spec fn has_addr(s: Seq<FwIdiot>, addr: NetAddr) -> bool {
    exists|i: int| 0 <= i < s.len() && #[trigger] s[i].idiot.addr == addr
}

/// The position of the entry for `addr`.
pub open spec fn addr_index(s: Seq<FwIdiot>, addr: NetAddr) -> int {
    choose|i: int| 0 <= i < s.len() && #[trigger] s[i].idiot.addr == addr
}

/// The entry of `s` for `addr`.
pub open spec fn lookup(s: Seq<FwIdiot>, addr: NetAddr) -> Option<FwIdiot> {
    if has_addr(s, addr) {
        Some(s[addr_index(s, addr)])
    } else {
        None
    }
}

/// The entries after recording `idiot` with `action`: the entry for its
/// address replaced, or a new entry at the end.
pub open spec fn after_add_idiot(s: Seq<FwIdiot>, idiot: Idiot, action: FwAction) -> Seq<FwIdiot> {
    if has_addr(s, idiot.addr) {
        s.update(addr_index(s, idiot.addr), FwIdiot { idiot, action })
    } else {
        s.push(FwIdiot { idiot, action })
    }
}

/// Recording `action` for `addr` needs a new rule: the address was not
/// recorded with an equal action.
pub open spec fn adds_new_rule(s: Seq<FwIdiot>, addr: NetAddr, action: FwAction) -> bool {
    !(lookup(s, addr) matches Some(prev) && action_eq(prev.action, action))
}

/// After an idiot is recorded, looking its address up gives it, other
/// addresses are looked up as before, addresses stay unique, and recording
/// the same address with the same action again needs no new rule (unless the
/// action throttles at a NaN rate, which equals nothing).
pub proof fn lemma_add_idiot_lookup(s: Seq<FwIdiot>, idiot: Idiot, action: FwAction, other: NetAddr)
    requires
        unique_addrs(s),
    ensures
        unique_addrs(after_add_idiot(s, idiot, action)),
        lookup(after_add_idiot(s, idiot, action), idiot.addr) == Some(FwIdiot { idiot, action }),
        other != idiot.addr ==> lookup(after_add_idiot(s, idiot, action), other) == lookup(s, other),
        action_eq(action, action) ==> !adds_new_rule(after_add_idiot(s, idiot, action), idiot.addr, action),
{
    let t = after_add_idiot(s, idiot, action);
    let e = FwIdiot { idiot, action };
    let n = s.len() as int;
    let k = if has_addr(s, idiot.addr) { addr_index(s, idiot.addr) } else { n };
    assert(0 <= k < t.len() && t[k] == e);
    assert forall|i: int| 0 <= i < t.len() && i != k implies #[trigger] t[i] == s[i] && s[i].idiot.addr != idiot.addr by {
        if has_addr(s, idiot.addr) {
            assert(idiot_addr(s[i]) != idiot_addr(s[k]));
        }
    }
    assert(unique_addrs(t)) by {
        assert forall|a: int, b: int|
            0 <= a < t.len() && 0 <= b < t.len() && a != b implies idiot_addr(#[trigger] t[a]) != idiot_addr(#[trigger] t[b]) by {
            if a != k && b != k {
                assert(idiot_addr(s[a]) != idiot_addr(s[b]));
            }
        }
    }
    assert(has_addr(t, idiot.addr));
    let j = addr_index(t, idiot.addr);
    assert(j == k) by {
        if j != k {
            assert(idiot_addr(t[j]) != idiot_addr(t[k]));
        }
    }
    if other != idiot.addr {
        if has_addr(s, other) {
            let i = addr_index(s, other);
            assert(i != k);
            assert(t[i] == s[i]);
            assert(has_addr(t, other));
            let i2 = addr_index(t, other);
            assert(i2 == i) by {
                if i2 != i {
                    assert(idiot_addr(t[i2]) != idiot_addr(t[i]));
                }
            }
        } else {
            if has_addr(t, other) {
                let i2 = addr_index(t, other);
                assert(i2 != k);
                assert(t[i2] == s[i2]);
            }
        }
    }
}

/// The index of the entry for `addr`.
fn position(idiots: &Vec<FwIdiot>, addr: NetAddr) -> (r: Option<usize>)
    ensures
        match r {
            Some(i) => i < idiots@.len() && idiots@[i as int].idiot.addr == addr,
            None => !has_addr(idiots@, addr),
        },
{
    let mut i: usize = 0;
    while i < idiots.len()
        invariant
            i <= idiots.len(),
            forall|j: int| 0 <= j < i ==> idiots@[j].idiot.addr != addr,
        decreases idiots.len() - i,
    {
        if idiots[i].idiot.addr == addr {
            return Some(i);
        }
        i = i + 1;
    }
    None
}

impl FirewallState {
    /// The blocked idiots.
    pub closed spec fn idiots(&self) -> Seq<FwIdiot> {
        self.idiots@
    }

    /// The installed global limit rule.
    pub closed spec fn global_limit(&self) -> Option<GlobalLimit> {
        self.global_limit
    }

    /// Each address is recorded at most once.
    #[verifier::type_invariant]
    spec fn addrs_unique(&self) -> bool {
        unique_addrs(self.idiots@)
    }

    /// Nothing blocked, no global limit.
    pub fn new() -> (r: Self)
        ensures
            r.idiots() == Seq::<FwIdiot>::empty(),
            r.global_limit() is None,
    {
        Self { idiots: Vec::new(), global_limit: None }
    }

    /// The installed global limit rule.
    pub fn get_global_limit(&self) -> (r: Option<GlobalLimit>)
        ensures
            r == self.global_limit(),
    {
        self.global_limit
    }

    /// Record an idiot, replacing an entry for the same address.
    /// Returns the command that installs its rule, or `None` where an equal
    /// action was recorded for the address already.
    pub fn add_idiot(&mut self, idiot: Idiot, action: FwAction) -> (r: Option<NfCmd>)
        ensures
            unique_addrs(final(self).idiots()),
            final(self).global_limit() == old(self).global_limit(),
            final(self).idiots() == after_add_idiot(old(self).idiots(), idiot, action),
            r is Some <==> adds_new_rule(old(self).idiots(), idiot.addr, action),
            r matches Some(cmd) ==> is_add_idiot_cmd(cmd, idiot.addr),
    {
        proof {
            use_type_invariant(&*self);
            lemma_add_idiot_lookup(self.idiots@, idiot, action, idiot.addr);
        }
        let entry = FwIdiot::new(idiot, action);
        let mut v: Vec<FwIdiot> = Vec::new();
        std::mem::swap(&mut v, &mut self.idiots);
        let existed_same = match position(&v, idiot.addr) {
            Some(i) => {
                let same = action_equal(v[i].action, action);
                proof {
                    let j = addr_index(old(self).idiots(), idiot.addr);
                    assert(j == i) by {
                        if j != i {
                            assert(idiot_addr(old(self).idiots()[j]) != idiot_addr(old(self).idiots()[i as int]));
                        }
                    }
                    assert(lookup(old(self).idiots(), idiot.addr) == Some(old(self).idiots()[i as int]));
                }
                v.set(i, entry);
                same
            },
            None => {
                v.push(entry);
                false
            },
        };
        proof {
            assert(v@ == after_add_idiot(old(self).idiots(), idiot, action));
        }
        self.idiots = v;
        if existed_same {
            None
        } else {
            match gen_add_idiot_cmd(&entry) {
                Ok(cmd) => Some(cmd),
                Err(_) => None,
            }
        }
    }

    /// Ask for a global limit rule of the given rate until `timeout`.
    /// Where one is installed, its timeout is extended to a later `timeout` and
    /// `None` comes back; otherwise the command that installs it comes back,
    /// and `global_limit_installed` records it once applied. The rate of an
    /// installed rule does not change: a rate that does not compare equal to it
    /// as `f32` is not accepted.
    pub fn add_global_limit(&mut self, rate_bits: u32, packets_per_minute: u32, timeout: u128) -> (r: Option<NfCmd>)
        requires
            old(self).global_limit() matches Some(g) ==> f32_bits_eq(g.rate_bits, rate_bits),
        ensures
            final(self).idiots() == old(self).idiots(),
            old(self).global_limit() matches Some(g) ==> (final(self).global_limit() matches Some(h)
                && h.timeout >= g.timeout),
            match old(self).global_limit() {
                Some(g) => {
                    &&& r is None
                    &&& final(self).global_limit() == if timeout > g.timeout {
                        Some(GlobalLimit { rate_bits, packets_per_minute, timeout })
                    } else {
                        Some(g)
                    }
                },
                None => {
                    &&& r matches Some(cmd) && is_add_global_limit_cmd(cmd, packets_per_minute)
                    &&& final(self).global_limit() is None
                },
            },
    {
        proof {
            use_type_invariant(&*self);
        }
        match self.global_limit {
            Some(g) => {
                if timeout > g.timeout {
                    self.global_limit = Some(GlobalLimit { rate_bits, packets_per_minute, timeout });
                }
                None
            },
            None => Some(gen_add_global_limit_cmd(packets_per_minute)),
        }
    }

    /// Record that the global limit rule was installed.
    pub fn global_limit_installed(&mut self, rate_bits: u32, packets_per_minute: u32, timeout: u128)
        ensures
            final(self).idiots() == old(self).idiots(),
            final(self).global_limit() == Some(GlobalLimit { rate_bits, packets_per_minute, timeout }),
    {
        proof {
            use_type_invariant(&*self);
        }
        self.global_limit = Some(GlobalLimit { rate_bits, packets_per_minute, timeout });
    }

    /// The command that installs the recorded global limit rule again.
    pub fn global_limit_cmd(&self) -> (r: Option<NfCmd>)
        ensures
            match self.global_limit() {
                Some(g) => r matches Some(cmd) && is_add_global_limit_cmd(cmd, g.packets_per_minute),
                None => r is None,
            },
    {
        match self.global_limit {
            Some(g) => Some(gen_add_global_limit_cmd(g.packets_per_minute)),
            None => None,
        }
    }

    /// The global limit rule is installed and has run out at `now`.
    pub fn global_limit_expired(&self, now: u128) -> (r: bool)
        ensures
            r == (self.global_limit() matches Some(g) && now >= g.timeout),
    {
        match self.global_limit {
            Some(g) => now >= g.timeout,
            None => false,
        }
    }

    /// Forget the global limit rule.
    pub fn clear_global_limit(&mut self)
        ensures
            final(self).idiots() == old(self).idiots(),
            final(self).global_limit() is None,
    {
        proof {
            use_type_invariant(&*self);
        }
        self.global_limit = None;
    }

    /// Forget every idiot (after the daemon's chain was flushed).
    pub fn clear_idiots(&mut self)
        ensures
            final(self).idiots() == Seq::<FwIdiot>::empty(),
            final(self).global_limit() == old(self).global_limit(),
    {
        self.idiots = Vec::new();
    }

    /// Remove the idiots whose block has run out at `now` and hand them out,
    /// in the order in which they were kept.
    pub fn take_timed_out(&mut self, now: u128) -> (r: Vec<FwIdiot>)
        ensures
            unique_addrs(final(self).idiots()),
            final(self).global_limit() == old(self).global_limit(),
            final(self).idiots() == old(self).idiots().filter(|x: FwIdiot| !(now >= x.idiot.timeout)),
            r@ == old(self).idiots().filter(|x: FwIdiot| now >= x.idiot.timeout),
            forall|i: int| 0 <= i < final(self).idiots().len() ==> now < (#[trigger] final(self).idiots()[i]).idiot.timeout,
            forall|i: int| 0 <= i < r@.len() ==> now >= (#[trigger] r@[i]).idiot.timeout,
    {
        proof {
            use_type_invariant(&*self);
        }
        let ghost keep = |x: FwIdiot| !(now >= x.idiot.timeout);
        let ghost gone = |x: FwIdiot| now >= x.idiot.timeout;
        let mut kept: Vec<FwIdiot> = Vec::new();
        let mut timed_out: Vec<FwIdiot> = Vec::new();
        let mut i: usize = 0;
        proof {
            lemma_filter_take_ends(self.idiots@, keep);
            lemma_filter_take_ends(self.idiots@, gone);
        }
        while i < self.idiots.len()
            invariant
                i <= self.idiots.len(),
                self.idiots@ == old(self).idiots(),
                keep == (|x: FwIdiot| !(now >= x.idiot.timeout)),
                gone == (|x: FwIdiot| now >= x.idiot.timeout),
                kept@ == self.idiots@.take(i as int).filter(keep),
                timed_out@ == self.idiots@.take(i as int).filter(gone),
            decreases self.idiots.len() - i,
        {
            let x = self.idiots[i];
            proof {
                lemma_filter_take_step(self.idiots@, keep, i as int);
                lemma_filter_take_step(self.idiots@, gone, i as int);
            }
            if x.is_timed_out(now) {
                timed_out.push(x);
            } else {
                kept.push(x);
            }
            i = i + 1;
        }
        proof {
            lemma_filter_take_ends(self.idiots@, keep);
            lemma_filter_distinct(old(self).idiots(), keep, |x: FwIdiot| idiot_addr(x));
            lemma_filter_distinct(old(self).idiots(), gone, |x: FwIdiot| idiot_addr(x));
            assert forall|k: int| 0 <= k < kept@.len() implies now < (#[trigger] kept@[k]).idiot.timeout by {
                assert(kept@.contains(kept@[k]));
            }
            assert forall|k: int| 0 <= k < timed_out@.len() implies now >= (#[trigger] timed_out@[k]).idiot.timeout by {
                assert(timed_out@.contains(timed_out@[k]));
            }
        }
        self.idiots = kept;
        timed_out
    }

    /// The commands that install the rules of all recorded idiots.
    pub fn idiot_add_cmds(&self) -> (r: Vec<NfCmd>)
        ensures
            r@.len() == self.idiots().len(),
            forall|i: int| 0 <= i < r@.len() ==> is_add_idiot_cmd(#[trigger] r@[i], self.idiots()[i].idiot.addr),
    {
        let mut cmds: Vec<NfCmd> = Vec::new();
        let mut i: usize = 0;
        while i < self.idiots.len()
            invariant
                i <= self.idiots.len(),
                cmds@.len() == i,
                forall|j: int| 0 <= j < i ==> is_add_idiot_cmd(#[trigger] cmds@[j], self.idiots@[j].idiot.addr),
            decreases self.idiots.len() - i,
        {
            match gen_add_idiot_cmd(&self.idiots[i]) {
                Ok(cmd) => cmds.push(cmd),
                Err(_) => {
                    // The daemon's family takes every address.
                    assert(false);
                    return cmds;
                },
            }
            i = i + 1;
        }
        cmds
    }

    /// The commands that put every rule back after a reload: flush the
    /// daemon's chain, add the rule of each recorded idiot in order, then the
    /// global limit rule where one is recorded. The records stay as they are.
    pub fn reload_cmds(&self) -> (r: Vec<NfCmd>)
        ensures
            r@.len() == 1 + self.idiots().len() + if self.global_limit() is Some { 1int } else { 0int },
            is_flush_cmd(r@[0]),
            forall|i: int| 0 <= i < self.idiots().len() ==> is_add_idiot_cmd(#[trigger] r@[1 + i], self.idiots()[i].idiot.addr),
            self.global_limit() matches Some(g) ==> is_add_global_limit_cmd(r@.last(), g.packets_per_minute),
    {
        let mut cmds: Vec<NfCmd> = Vec::new();
        cmds.push(gen_flush_cmd());
        let mut adds = self.idiot_add_cmds();
        cmds.append(&mut adds);
        match self.global_limit_cmd() {
            Some(cmd) => cmds.push(cmd),
            None => {},
        }
        cmds
    }
}

/// `cmd` deletes the listed rule that blocks `addr`.
pub open spec fn deletes_rule_of(objs: Seq<crate::nft::ListedObject>, addr: NetAddr, cmd: NfCmd) -> bool {
    match handle_of(objs, idiot_comment(addr)) {
        Some(h) => is_delete_cmd(cmd, h),
        None => false,
    }
}

/// `e` reports that no rule carries `comment`.
pub open spec fn is_not_found(e: FwError, comment: Seq<char>) -> bool {
    match e {
        FwError::HandleNotFound(c) => c@ == comment,
        _ => false,
    }
}

/// The commands that delete the rules of the given idiots, listed from the
/// kernel's ruleset; fails on the first idiot without a rule.
pub fn delete_idiot_cmds(ruleset: &ListedRuleset, idiots: &Vec<FwIdiot>) -> (r: Result<Vec<NfCmd>, FwError>)
    ensures
        match r {
            Ok(cmds) => {
                &&& cmds@.len() == idiots@.len()
                &&& forall|i: int|
                    0 <= i < idiots@.len() ==> deletes_rule_of(ruleset.objs@, idiots@[i].idiot.addr, #[trigger] cmds@[i])
            },
            Err(e) => exists|i: int|
                0 <= i < idiots@.len() && handle_of(ruleset.objs@, idiot_comment(#[trigger] idiots@[i].idiot.addr)) is None
                    && (forall|j: int| 0 <= j < i ==> handle_of(ruleset.objs@, idiot_comment(#[trigger] idiots@[j].idiot.addr)) is Some)
                    && is_not_found(e, idiot_comment(idiots@[i].idiot.addr)),
        },
{
    let mut cmds: Vec<NfCmd> = Vec::new();
    let mut i: usize = 0;
    while i < idiots.len()
        invariant
            i <= idiots.len(),
            cmds@.len() == i,
            forall|j: int|
                0 <= j < i ==> deletes_rule_of(ruleset.objs@, idiots@[j].idiot.addr, #[trigger] cmds@[j]),
        decreases idiots.len() - i,
    {
        match ruleset.gen_delete_idiot_cmd(&idiots[i]) {
            Ok(cmd) => cmds.push(cmd),
            Err(e) => {
                proof {
                    assert forall|j: int| 0 <= j < i implies handle_of(ruleset.objs@, idiot_comment(#[trigger] idiots@[j].idiot.addr)) is Some by {
                        assert(deletes_rule_of(ruleset.objs@, idiots@[j].idiot.addr, cmds@[j]));
                    }
                }
                return Err(e);
            },
        }
        i = i + 1;
    }
    Ok(cmds)
}

} // verus!
