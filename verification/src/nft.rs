//! The nftables rules that the daemon installs, and the lookup of installed
//! rules by their comment.

use vstd::prelude::*;
use crate::netaddr::{addr_text, ipv4_text, spec_ipv4_mapped, NetAddr};
use crate::firewall::FwIdiot;
use crate::addr_identity::{addr_char, lemma_addr_text_inj};

verus! {

/// An nftables address family.
#[derive(Clone, Copy, Debug, PartialEq, Eq, Structural)]
pub enum NfFamily {
    IP,
    IP6,
    INet,
    ARP,
    Bridge,
    NetDev,
}

/// The family of the daemon's chain.
pub const NFT_FAMILY: NfFamily = NfFamily::INet;

/// The table of the daemon's chain.
pub open spec fn nft_table() -> Seq<char> {
    "filter"@
}

/// The daemon's chain.
pub open spec fn nft_chain() -> Seq<char> {
    "IDIOD-INPUT"@
}

/// The comment that marks the rule blocking `addr`.
pub open spec fn idiot_comment(addr: NetAddr) -> Seq<char> {
    addr_text(addr) + "/drop/idiod/GENERATED"@
}

/// The comment that marks the global limit rule.
pub open spec fn global_limit_comment() -> Seq<char> {
    "any/limit-over-drop/idiod/GENERATED"@
}

/// The comment of a blocking rule identifies the blocked address: two
/// addresses get the same comment only if they are the same address, and no
/// blocking rule carries the comment of the global limit rule.
pub proof fn lemma_idiot_comment_identifies(a: NetAddr, b: NetAddr)
    ensures
        idiot_comment(a) == idiot_comment(b) <==> a == b,
        idiot_comment(a) != global_limit_comment(),
{
    lemma_addr_text_inj(a, b);
    lemma_addr_text_inj(b, a);
    let ca = idiot_comment(a);
    let cb = idiot_comment(b);
    if ca == cb {
        assert(addr_text(a) =~= ca.subrange(0, addr_text(a).len() as int));
        assert(addr_text(b) =~= cb.subrange(0, addr_text(b).len() as int));
        assert(ca.len() == addr_text(a).len() + "/drop/idiod/GENERATED"@.len());
        assert(cb.len() == addr_text(b).len() + "/drop/idiod/GENERATED"@.len());
        assert(addr_text(a).len() == addr_text(b).len());
        assert(addr_text(a) == addr_text(b));
    }
    reveal_strlit("any/limit-over-drop/idiod/GENERATED");
    assert(ca[1] == addr_text(a)[1]);
    assert(addr_char(addr_text(a)[1]));
    assert(global_limit_comment()[1] == 'n');
}

/// `r` is a rule of the daemon's chain.
pub open spec fn in_daemon_chain(family: NfFamily, table: Seq<char>, chain: Seq<char>) -> bool {
    &&& family == NFT_FAMILY
    &&& table == nft_table()
    &&& chain == nft_chain()
}

/// `cmd` adds the rule that drops every packet from `addr`.
pub open spec fn is_add_idiot_cmd(cmd: NfCmd, addr: NetAddr) -> bool {
    match cmd {
        NfCmd::Add(rule) => {
            &&& in_daemon_chain(rule.family, rule.table@, rule.chain@)
            &&& rule.expr@.len() == 2
            &&& saddr_match_parts(NFT_FAMILY, addr) matches Some((protocol, value))
                && is_saddr_match(rule.expr@[0], protocol, value)
            &&& rule.expr@[1] is Drop
            &&& rule.handle is None
            &&& rule.comment matches Some(c) && c@ == idiot_comment(addr)
        },
        _ => false,
    }
}

/// `cmd` adds the rule that drops packets over `packets_per_minute`.
pub open spec fn is_add_global_limit_cmd(cmd: NfCmd, packets_per_minute: u32) -> bool {
    match cmd {
        NfCmd::Add(rule) => {
            &&& in_daemon_chain(rule.family, rule.table@, rule.chain@)
            &&& rule.expr@.len() == 2
            &&& match rule.expr@[0] {
                Statement::Limit { rate, per, inv } => {
                    &&& rate == packets_per_minute
                    &&& per matches Some(p) && p@ == "minute"@
                    &&& inv == Some(true)
                },
                _ => false,
            }
            &&& rule.expr@[1] is Drop
            &&& rule.handle is None
            &&& rule.comment matches Some(c) && c@ == global_limit_comment()
        },
        _ => false,
    }
}

/// `cmd` deletes the rule with `handle` from the daemon's chain.
pub open spec fn is_delete_cmd(cmd: NfCmd, handle: u32) -> bool {
    match cmd {
        NfCmd::Delete(rule) => {
            &&& in_daemon_chain(rule.family, rule.table@, rule.chain@)
            &&& rule.expr@.len() == 0
            &&& rule.handle == Some(handle)
            &&& rule.comment is None
        },
        _ => false,
    }
}

/// `cmd` removes every rule from the daemon's chain.
pub open spec fn is_flush_cmd(cmd: NfCmd) -> bool {
    match cmd {
        NfCmd::FlushChain { family, table, name } => in_daemon_chain(family, table@, name@),
        _ => false,
    }
}

/// `obj` is a listed rule of the daemon's chain with a handle and the comment.
pub open spec fn rule_with_comment(obj: ListedObject, comment: Seq<char>) -> bool {
    match obj {
        ListedObject::Rule(rule) => {
            &&& in_daemon_chain(rule.family, rule.table@, rule.chain@)
            &&& rule.handle is Some
            &&& rule.comment matches Some(c) && c@ == comment
        },
        ListedObject::Other => false,
    }
}

/// The handle of the first listed rule of the daemon's chain that carries `comment`.
pub open spec fn handle_of(objs: Seq<ListedObject>, comment: Seq<char>) -> Option<u32>
    decreases objs.len(),
{
    if objs.len() == 0 {
        None
    } else if rule_with_comment(objs[0], comment) {
        objs[0]->Rule_0.handle
    } else {
        handle_of(objs.drop_first(), comment)
    }
}

/// What the firewall code can fail on.
#[derive(Clone, Debug)]
pub enum FwError {
    /// The address's IP version does not fit the rule's family.
    FamilyMismatch,
    /// No installed rule carries this comment.
    HandleNotFound(String),
}

/// A comparison operator of a match statement.
#[derive(Clone, Copy, Debug, PartialEq, Eq, Structural)]
pub enum Operator {
    EQ,
}

/// A statement of an nftables rule.
#[derive(Debug)]
pub enum Statement {
    /// `<protocol> <field> <op> <value>`, e.g. `ip saddr == 1.2.3.4`.
    Match { protocol: String, field: String, value: String, op: Operator },
    /// `limit rate [over] <rate>/<per>`.
    Limit { rate: u32, per: Option<String>, inv: Option<bool> },
    /// `accept`.
    Accept,
    /// `drop`.
    Drop,
}

/// An nftables rule in the daemon's chain.
#[derive(Debug)]
pub struct Rule {
    pub family: NfFamily,
    pub table: String,
    pub chain: String,
    pub expr: Vec<Statement>,
    pub handle: Option<u32>,
    pub comment: Option<String>,
}

/// An nftables command.
#[derive(Debug)]
pub enum NfCmd {
    /// Add a rule.
    Add(Rule),
    /// Delete the rule with the given handle.
    Delete(Rule),
    /// Remove every rule of a chain.
    FlushChain { family: NfFamily, table: String, name: String },
}

/// A rule as listed from the kernel: what identifies it.
#[derive(Debug)]
pub struct ListedRule {
    pub family: NfFamily,
    pub table: String,
    pub chain: String,
    pub handle: Option<u32>,
    pub comment: Option<String>,
}

/// An object of a ruleset listed from the kernel.
#[derive(Debug)]
pub enum ListedObject {
    Rule(ListedRule),
    /// Any other object (tables, chains, sets, metainfo, ...).
    Other,
}

/// The ruleset listed from the kernel.
pub struct ListedRuleset {
    pub objs: Vec<ListedObject>,
}

/// The protocol keyword and the address text of the source address match
/// for `addr` in `family`, or `None` where the IP version does not fit.
/// An IPv4-mapped IPv6 address is matched as the IPv4 address it maps.
pub open spec fn saddr_match_parts(family: NfFamily, addr: NetAddr) -> Option<(Seq<char>, Seq<char>)> {
    match addr {
        NetAddr::V4(_) => if family == NfFamily::INet || family == NfFamily::IP {
            Some((seq!['i', 'p'], addr_text(addr)))
        } else {
            None
        },
        NetAddr::V6(a) => match spec_ipv4_mapped(a) {
            Some(v4) => if family == NfFamily::INet || family == NfFamily::IP {
                Some((seq!['i', 'p'], ipv4_text(v4)))
            } else {
                None
            },
            None => if family == NfFamily::INet || family == NfFamily::IP6 {
                Some((seq!['i', 'p', '6'], addr_text(addr)))
            } else {
                None
            },
        },
    }
}

/// The protocol of a source address match follows the address's IP
/// version: an IPv6 address that is not IPv4-mapped is matched as `ip6` in
/// the families that take IPv6 (inet, ip6), written as usual; an IPv4 or
/// IPv4-mapped address is matched as `ip` on its dotted IPv4 text in the
/// families that take IPv4 (inet, ip); every other family is refused.
pub proof fn lemma_saddr_protocol(family: NfFamily, addr: NetAddr)
    ensures
        match addr {
            NetAddr::V4(v) => if family == NfFamily::INet || family == NfFamily::IP {
                saddr_match_parts(family, addr) == Some((seq!['i', 'p'], ipv4_text(v)))
            } else {
                saddr_match_parts(family, addr) is None
            },
            NetAddr::V6(a) => match spec_ipv4_mapped(a) {
                Some(v) => if family == NfFamily::INet || family == NfFamily::IP {
                    saddr_match_parts(family, addr) == Some((seq!['i', 'p'], ipv4_text(v)))
                } else {
                    saddr_match_parts(family, addr) is None
                },
                None => if family == NfFamily::INet || family == NfFamily::IP6 {
                    saddr_match_parts(family, addr) == Some((seq!['i', 'p', '6'], addr_text(addr)))
                } else {
                    saddr_match_parts(family, addr) is None
                },
            },
        },
{
    match addr {
        NetAddr::V6(a) => {
            match spec_ipv4_mapped(a) {
                Some(v) => assert(saddr_match_parts(family, addr) == if family == NfFamily::INet || family
                    == NfFamily::IP {
                    Some((seq!['i', 'p'], ipv4_text(v)))
                } else {
                    None
                }),
                None => {},
            }
        },
        NetAddr::V4(_) => {},
    }
}

/// `s` is a source address match on the given protocol and address text.
pub open spec fn is_saddr_match(s: Statement, protocol: Seq<char>, value: Seq<char>) -> bool {
    match s {
        Statement::Match { protocol: p, field, value: v, op } => {
            &&& p@ == protocol
            &&& field@ == seq!['s', 'a', 'd', 'd', 'r']
            &&& v@ == value
            &&& op == Operator::EQ
        },
        _ => false,
    }
}

/// Comment string for an idiot rule; it identifies the rule.
pub fn gen_comment_idiot(idiot: &FwIdiot) -> (r: String)
    ensures
        r@ == idiot_comment(idiot.idiot.addr),
{
    let mut comment = idiot.addr().to_text();
    comment.append("/drop/idiod/GENERATED");
    comment
}

/// Comment string for the limiter rule; it identifies the rule.
pub fn gen_comment_global_limit() -> (r: &'static str)
    ensures
        r@ == global_limit_comment(),
{
    "any/limit-over-drop/idiod/GENERATED"
}

fn daemon_rule(expr: Vec<Statement>, handle: Option<u32>, comment: Option<String>) -> (r: Rule)
    ensures
        in_daemon_chain(r.family, r.table@, r.chain@),
        r.expr == expr,
        r.handle == handle,
        r.comment == comment,
{
    Rule {
        family: NFT_FAMILY,
        table: string_of("filter"),
        chain: string_of("IDIOD-INPUT"),
        expr,
        handle,
        comment,
    }
}

/// The command that adds the rule dropping every packet from this idiot.
pub fn gen_add_idiot_cmd(idiot: &FwIdiot) -> (r: Result<NfCmd, FwError>)
    ensures
        match saddr_match_parts(NFT_FAMILY, idiot.idiot.addr) {
            Some(_) => r matches Ok(cmd) && is_add_idiot_cmd(cmd, idiot.idiot.addr),
            None => r == Err::<NfCmd, FwError>(FwError::FamilyMismatch),
        },
{
    let m = statement_match_saddr(NFT_FAMILY, idiot.addr())?;
    let mut expr: Vec<Statement> = Vec::new();
    expr.push(m);
    expr.push(statement_drop());
    let rule = daemon_rule(expr, None, Some(gen_comment_idiot(idiot)));
    Ok(NfCmd::Add(rule))
}

/// The command that adds the rule dropping all packets over
/// `packets_per_minute` (counted over all peers).
pub fn gen_add_global_limit_cmd(packets_per_minute: u32) -> (r: NfCmd)
    ensures
        is_add_global_limit_cmd(r, packets_per_minute),
{
    let mut expr: Vec<Statement> = Vec::new();
    expr.push(Statement::Limit { rate: packets_per_minute, per: Some(string_of("minute")), inv: Some(true) });
    expr.push(statement_drop());
    let rule = daemon_rule(expr, None, Some(string_of(gen_comment_global_limit())));
    NfCmd::Add(rule)
}

/// The command that removes every rule from the daemon's chain.
pub fn gen_flush_cmd() -> (r: NfCmd)
    ensures
        is_flush_cmd(r),
{
    NfCmd::FlushChain { family: NFT_FAMILY, table: string_of("filter"), name: string_of("IDIOD-INPUT") }
}

fn str_equal(a: &str, b: &str) -> (r: bool)
    ensures
        r == (a@ == b@),
{
    a.to_owned() == b.to_owned()
}

impl ListedRuleset {
    /// Get the nftables handle of the daemon's rule carrying `comment`.
    /// The rule's comment is the main identifier.
    pub fn find_handle(&self, comment: &str) -> (r: Result<u32, FwError>)
        ensures
            match handle_of(self.objs@, comment@) {
                Some(h) => r == Ok::<u32, FwError>(h),
                None => r matches Err(FwError::HandleNotFound(c)) && c@ == comment@,
            },
    {
        let mut i: usize = 0;
        assert(self.objs@.skip(0) =~= self.objs@);
        while i < self.objs.len()
            invariant
                i <= self.objs.len(),
                handle_of(self.objs@, comment@) == handle_of(self.objs@.skip(i as int), comment@),
            decreases self.objs.len() - i,
        {
            proof {
                assert(self.objs@.skip(i as int).drop_first() =~= self.objs@.skip(i + 1));
            }
            match &self.objs[i] {
                ListedObject::Rule(rule) => {
                    if let (Some(handle), Some(rule_comment)) = (rule.handle, &rule.comment) {
                        if rule.family == NFT_FAMILY && str_equal(rule.table.as_str(), "filter")
                            && str_equal(rule.chain.as_str(), "IDIOD-INPUT") && str_equal(
                            rule_comment.as_str(),
                            comment,
                        ) {
                            return Ok(handle);
                        }
                    }
                },
                ListedObject::Other => {},
            }
            i = i + 1;
        }
        Err(FwError::HandleNotFound(string_of(comment)))
    }

    /// Get the nftables handle of the rule blocking this idiot.
    pub fn find_idiot_handle(&self, idiot: &FwIdiot) -> (r: Result<u32, FwError>)
        ensures
            match handle_of(self.objs@, idiot_comment(idiot.idiot.addr)) {
                Some(h) => r == Ok::<u32, FwError>(h),
                None => r matches Err(FwError::HandleNotFound(c)) && c@ == idiot_comment(
                    idiot.idiot.addr,
                ),
            },
    {
        let comment = gen_comment_idiot(idiot);
        self.find_handle(comment.as_str())
    }

    /// The command that deletes the daemon's rule with `handle`.
    pub fn gen_delete_cmd(&self, handle: u32) -> (r: NfCmd)
        ensures
            is_delete_cmd(r, handle),
    {
        NfCmd::Delete(daemon_rule(Vec::new(), Some(handle), None))
    }

    /// Generate the nftables delete command for the global limit rule.
    pub fn gen_delete_global_limit_cmd(&self) -> (r: Result<NfCmd, FwError>)
        ensures
            match handle_of(self.objs@, global_limit_comment()) {
                Some(h) => r matches Ok(cmd) && is_delete_cmd(cmd, h),
                None => r matches Err(FwError::HandleNotFound(c)) && c@ == global_limit_comment(),
            },
    {
        let handle = self.find_handle(gen_comment_global_limit())?;
        Ok(self.gen_delete_cmd(handle))
    }

    /// Generate the nftables delete command for the rule blocking this idiot.
    pub fn gen_delete_idiot_cmd(&self, idiot: &FwIdiot) -> (r: Result<NfCmd, FwError>)
        ensures
            match handle_of(self.objs@, idiot_comment(idiot.idiot.addr)) {
                Some(h) => r matches Ok(cmd) && is_delete_cmd(cmd, h),
                None => r matches Err(FwError::HandleNotFound(c)) && c@ == idiot_comment(
                    idiot.idiot.addr,
                ),
            },
    {
        let handle = self.find_idiot_handle(idiot)?;
        Ok(self.gen_delete_cmd(handle))
    }
}

fn string_of(s: &str) -> (r: String)
    ensures
        r@ == s@,
{
    s.to_owned()
}

/// Create an nftables IP source address match statement.
pub fn statement_match_saddr(family: NfFamily, addr: NetAddr) -> (r: Result<Statement, FwError>)
    ensures
        match saddr_match_parts(family, addr) {
            Some((protocol, value)) => r matches Ok(s) && is_saddr_match(s, protocol, value),
            None => r == Err::<Statement, FwError>(FwError::FamilyMismatch),
        },
        family == NfFamily::INet ==> r is Ok,
        r matches Ok(Statement::Match { protocol, .. }) ==> (protocol@ == seq!['i', 'p', '6'] <==> (
        addr matches NetAddr::V6(a) && spec_ipv4_mapped(a) is None)),
        r matches Ok(Statement::Match { protocol, .. }) ==> (protocol@ == seq!['i', 'p'] <==> !(
        addr matches NetAddr::V6(a) && spec_ipv4_mapped(a) is None)),
{
    proof {
        reveal_strlit("ip");
        reveal_strlit("ip6");
        reveal_strlit("saddr");
    }
    let v4_family = family == NfFamily::INet || family == NfFamily::IP;
    let v6_family = family == NfFamily::INet || family == NfFamily::IP6;
    let (protocol, value) = match addr {
        NetAddr::V4(_) => {
            if !v4_family {
                return Err(FwError::FamilyMismatch);
            }
            let p = string_of("ip");
            assert(p@ =~= seq!['i', 'p']);
            (p, addr.to_text())
        },
        NetAddr::V6(_) => {
            match addr.to_ipv4_mapped() {
                Some(v4) => {
                    if !v4_family {
                        return Err(FwError::FamilyMismatch);
                    }
                    let p = string_of("ip");
                    assert(p@ =~= seq!['i', 'p']);
                    (p, NetAddr::V4(v4).to_text())
                },
                None => {
                    if !v6_family {
                        return Err(FwError::FamilyMismatch);
                    }
                    let p = string_of("ip6");
                    assert(p@ =~= seq!['i', 'p', '6']);
                    (p, addr.to_text())
                },
            }
        },
    };
    let field = string_of("saddr");
    assert(field@ =~= seq!['s', 'a', 'd', 'd', 'r']);
    Ok(Statement::Match { protocol, field, value, op: Operator::EQ })
}

/// Create an nftables `accept` statement.
pub fn statement_accept() -> (r: Statement)
    ensures
        r is Accept,
{
    Statement::Accept
}

/// Create an nftables `drop` statement.
pub fn statement_drop() -> (r: Statement)
    ensures
        r is Drop,
{
    Statement::Drop
}

} // verus!
