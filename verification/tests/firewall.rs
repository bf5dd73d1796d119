use idiod::firewall::{
    action_equal, delete_idiot_cmds, f32_bits_equal, FirewallState, FwAction, FwIdiot, GlobalLimit, Idiot,
};
use idiod::netaddr::NetAddr;
use idiod::nft::{
    gen_add_global_limit_cmd, gen_add_idiot_cmd, gen_comment_global_limit, gen_comment_idiot,
    gen_flush_cmd, statement_accept, statement_drop, statement_match_saddr, FwError, ListedObject,
    ListedRule, ListedRuleset, NfCmd, NfFamily, Operator, Statement,
};

const SEC: u128 = 1_000_000_000;

fn idiot(a: u32, timeout: u128) -> Idiot {
    Idiot::new(NetAddr::V4(a), timeout)
}

fn rule(family: NfFamily, table: &str, chain: &str, handle: Option<u32>, comment: Option<&str>) -> ListedObject {
    ListedObject::Rule(ListedRule {
        family,
        table: table.to_string(),
        chain: chain.to_string(),
        handle,
        comment: comment.map(|c| c.to_string()),
    })
}

#[test]
fn adding_the_same_idiot_twice_existed_already() {
    let mut fw = FirewallState::new();
    let first = fw.add_idiot(idiot(0x01020304, 10 * SEC), FwAction::Block);
    assert!(matches!(first, Some(NfCmd::Add(_))));
    let second = fw.add_idiot(idiot(0x01020304, 20 * SEC), FwAction::Block);
    assert!(second.is_none());
    // A different action needs a new rule.
    let third = fw.add_idiot(idiot(0x01020304, 20 * SEC), FwAction::Throttle(1.5f32.to_bits()));
    assert!(third.is_some());
    // Another address needs its own rule.
    assert!(fw.add_idiot(idiot(0x05060708, 20 * SEC), FwAction::Block).is_some());
}

#[test]
fn timed_out_idiots_are_taken_out() {
    let mut fw = FirewallState::new();
    fw.add_idiot(idiot(1, 10 * SEC), FwAction::Block);
    fw.add_idiot(idiot(2, 30 * SEC), FwAction::Block);
    fw.add_idiot(idiot(3, 20 * SEC), FwAction::Block);
    let out = fw.take_timed_out(20 * SEC);
    let addrs: Vec<NetAddr> = out.iter().map(|x| x.addr()).collect();
    assert_eq!(addrs, vec![NetAddr::V4(1), NetAddr::V4(3)]);
    assert!(fw.take_timed_out(20 * SEC).is_empty());
    let cmds = fw.idiot_add_cmds();
    assert_eq!(cmds.len(), 1);
    let out = fw.take_timed_out(30 * SEC);
    assert_eq!(out.len(), 1);
    assert!(fw.idiot_add_cmds().is_empty());
}

#[test]
fn global_limit_is_installed_once_and_extended() {
    let mut fw = FirewallState::new();
    let bits = 100.0f32.to_bits();
    let cmd = fw.add_global_limit(bits, 6000, 60 * SEC);
    assert!(matches!(cmd, Some(NfCmd::Add(_))));
    assert_eq!(fw.get_global_limit(), None);
    fw.global_limit_installed(bits, 6000, 60 * SEC);
    assert!(fw.add_global_limit(bits, 6000, 50 * SEC).is_none());
    assert_eq!(fw.get_global_limit(), Some(GlobalLimit { rate_bits: bits, packets_per_minute: 6000, timeout: 60 * SEC }));
    assert!(fw.add_global_limit(bits, 6000, 90 * SEC).is_none());
    assert_eq!(fw.get_global_limit().unwrap().timeout, 90 * SEC);
    assert!(!fw.global_limit_expired(89 * SEC));
    assert!(fw.global_limit_expired(90 * SEC));
    assert!(fw.global_limit_cmd().is_some());
    fw.clear_global_limit();
    assert!(!fw.global_limit_expired(100 * SEC));
    assert!(fw.global_limit_cmd().is_none());
}

#[test]
fn clearing_forgets_idiots() {
    let mut fw = FirewallState::new();
    fw.add_idiot(idiot(1, 10 * SEC), FwAction::Block);
    fw.clear_idiots();
    assert!(fw.idiot_add_cmds().is_empty());
    assert!(fw.add_idiot(idiot(1, 10 * SEC), FwAction::Block).is_some());
}

#[test]
fn idiot_description() {
    let i = idiot(0x7f000001, 10 * SEC + 5);
    assert_eq!(i.describe(0), "127.0.0.1 (+10s)");
    assert_eq!(i.describe(SEC), "127.0.0.1 (+9s)");
    assert_eq!(i.describe(11 * SEC), "127.0.0.1 (+0s)");
    assert!(i.is_timed_out(10 * SEC + 5));
    assert!(!i.is_timed_out(10 * SEC + 4));
}

#[test]
fn idiot_rule_and_comment() {
    let fwi = FwIdiot::new(idiot(0x01020304, 0), FwAction::Block);
    assert_eq!(gen_comment_idiot(&fwi), "1.2.3.4/drop/idiod/GENERATED");
    assert_eq!(gen_comment_global_limit(), "any/limit-over-drop/idiod/GENERATED");
    match gen_add_idiot_cmd(&fwi).unwrap() {
        NfCmd::Add(r) => {
            assert_eq!(r.family, NfFamily::INet);
            assert_eq!(r.table, "filter");
            assert_eq!(r.chain, "IDIOD-INPUT");
            assert_eq!(r.comment.as_deref(), Some("1.2.3.4/drop/idiod/GENERATED"));
            assert_eq!(r.handle, None);
            match &r.expr[0] {
                Statement::Match { protocol, field, value, op } => {
                    assert_eq!(protocol, "ip");
                    assert_eq!(field, "saddr");
                    assert_eq!(value, "1.2.3.4");
                    assert_eq!(*op, Operator::EQ);
                }
                s => panic!("{s:?}"),
            }
            assert!(matches!(r.expr[1], Statement::Drop));
        }
        c => panic!("{c:?}"),
    }
}

#[test]
fn saddr_match_per_family() {
    let v6: u128 = 0x2001_0db8_0000_0000_0000_0000_0000_0001;
    let mapped: u128 = 0xffff_0a00_0001;
    match statement_match_saddr(NfFamily::IP6, NetAddr::V6(v6)).unwrap() {
        Statement::Match { protocol, value, .. } => {
            assert_eq!(protocol, "ip6");
            assert_eq!(value, "2001:db8::1");
        }
        s => panic!("{s:?}"),
    }
    match statement_match_saddr(NfFamily::INet, NetAddr::V6(mapped)).unwrap() {
        Statement::Match { protocol, value, .. } => {
            assert_eq!(protocol, "ip");
            assert_eq!(value, "10.0.0.1");
        }
        s => panic!("{s:?}"),
    }
    assert!(matches!(statement_match_saddr(NfFamily::IP6, NetAddr::V4(1)), Err(FwError::FamilyMismatch)));
    assert!(matches!(statement_match_saddr(NfFamily::IP6, NetAddr::V6(mapped)), Err(FwError::FamilyMismatch)));
    assert!(matches!(statement_match_saddr(NfFamily::IP, NetAddr::V6(v6)), Err(FwError::FamilyMismatch)));
    assert!(matches!(statement_match_saddr(NfFamily::ARP, NetAddr::V4(1)), Err(FwError::FamilyMismatch)));
    assert!(matches!(statement_accept(), Statement::Accept));
    assert!(matches!(statement_drop(), Statement::Drop));
}

#[test]
fn global_limit_rule() {
    match gen_add_global_limit_cmd(600) {
        NfCmd::Add(r) => {
            assert_eq!(r.comment.as_deref(), Some("any/limit-over-drop/idiod/GENERATED"));
            match &r.expr[0] {
                Statement::Limit { rate, per, inv } => {
                    assert_eq!(*rate, 600);
                    assert_eq!(per.as_deref(), Some("minute"));
                    assert_eq!(*inv, Some(true));
                }
                s => panic!("{s:?}"),
            }
        }
        c => panic!("{c:?}"),
    }
    match gen_flush_cmd() {
        NfCmd::FlushChain { family, table, name } => {
            assert_eq!(family, NfFamily::INet);
            assert_eq!(table, "filter");
            assert_eq!(name, "IDIOD-INPUT");
        }
        c => panic!("{c:?}"),
    }
}

#[test]
fn handles_are_found_by_comment() {
    let ruleset = ListedRuleset {
        objs: vec![
            ListedObject::Other,
            rule(NfFamily::IP, "filter", "IDIOD-INPUT", Some(1), Some("1.2.3.4/drop/idiod/GENERATED")),
            rule(NfFamily::INet, "other", "IDIOD-INPUT", Some(2), Some("1.2.3.4/drop/idiod/GENERATED")),
            rule(NfFamily::INet, "filter", "INPUT", Some(3), Some("1.2.3.4/drop/idiod/GENERATED")),
            rule(NfFamily::INet, "filter", "IDIOD-INPUT", None, Some("1.2.3.4/drop/idiod/GENERATED")),
            rule(NfFamily::INet, "filter", "IDIOD-INPUT", Some(5), Some("1.2.3.4/drop/idiod/GENERATED")),
            rule(NfFamily::INet, "filter", "IDIOD-INPUT", Some(6), Some("1.2.3.4/drop/idiod/GENERATED")),
            rule(NfFamily::INet, "filter", "IDIOD-INPUT", Some(7), Some("any/limit-over-drop/idiod/GENERATED")),
        ],
    };
    assert_eq!(ruleset.find_handle("1.2.3.4/drop/idiod/GENERATED").unwrap(), 5);
    match ruleset.gen_delete_global_limit_cmd().unwrap() {
        NfCmd::Delete(r) => {
            assert_eq!(r.handle, Some(7));
            assert!(r.expr.is_empty());
            assert_eq!(r.chain, "IDIOD-INPUT");
            assert_eq!(r.comment, None);
        }
        c => panic!("{c:?}"),
    }
    let present = FwIdiot::new(idiot(0x01020304, 0), FwAction::Block);
    let absent = FwIdiot::new(idiot(0x05060708, 0), FwAction::Block);
    assert!(matches!(ruleset.gen_delete_idiot_cmd(&present), Ok(NfCmd::Delete(_))));
    match ruleset.gen_delete_idiot_cmd(&absent) {
        Err(FwError::HandleNotFound(c)) => assert_eq!(c, "5.6.7.8/drop/idiod/GENERATED"),
        r => panic!("{r:?}"),
    }
    let cmds = delete_idiot_cmds(&ruleset, &vec![present, present]).unwrap();
    assert_eq!(cmds.len(), 2);
    assert!(matches!(delete_idiot_cmds(&ruleset, &vec![present, absent]), Err(FwError::HandleNotFound(_))));
    let empty = ListedRuleset { objs: vec![] };
    assert!(matches!(empty.gen_delete_global_limit_cmd(), Err(FwError::HandleNotFound(c)) if c == "any/limit-over-drop/idiod/GENERATED"));
    assert!(matches!(ruleset.gen_delete_cmd(9), NfCmd::Delete(r) if r.handle == Some(9)));
}

#[test]
fn comments_tell_addresses_apart() {
    let addrs = [
        NetAddr::V4(0x01020304),
        NetAddr::V4(0x0102031e),
        NetAddr::V6(1),
        NetAddr::V6(1u128 << 112),
        NetAddr::V6(0x0001_0000_0000_0000_0000_0000_0000_0001),
        NetAddr::V6(0xffff_0102_0304),
        NetAddr::V6(0x0102_0304),
    ];
    let comments: Vec<String> = addrs
        .iter()
        .map(|a| gen_comment_idiot(&FwIdiot::new(Idiot::new(*a, 0), FwAction::Block)))
        .collect();
    assert_eq!(comments[2], "::1/drop/idiod/GENERATED");
    assert_eq!(comments[3], "1::/drop/idiod/GENERATED");
    assert_eq!(comments[4], "1::1/drop/idiod/GENERATED");
    assert_eq!(comments[5], "::ffff:1.2.3.4/drop/idiod/GENERATED");
    for i in 0..comments.len() {
        assert_ne!(comments[i], gen_comment_global_limit());
        for j in 0..comments.len() {
            assert_eq!(comments[i] == comments[j], i == j);
        }
    }
}

#[test]
fn delete_command_for_a_handle() {
    let ruleset = ListedRuleset { objs: vec![] };
    match ruleset.gen_delete_cmd(7) {
        NfCmd::Delete(r) => {
            assert_eq!(r.family, NfFamily::INet);
            assert_eq!(r.table, "filter");
            assert_eq!(r.chain, "IDIOD-INPUT");
            assert!(r.expr.is_empty());
            assert_eq!(r.handle, Some(7));
            assert_eq!(r.comment, None);
        }
        c => panic!("{c:?}"),
    }
}

#[test]
fn throttle_rates_compare_as_floats() {
    assert!(f32_bits_equal(0.0f32.to_bits(), (-0.0f32).to_bits()));
    assert!(f32_bits_equal(2.5f32.to_bits(), 2.5f32.to_bits()));
    assert!(!f32_bits_equal(f32::NAN.to_bits(), f32::NAN.to_bits()));
    assert!(!f32_bits_equal(1.0f32.to_bits(), 2.0f32.to_bits()));
    assert!(action_equal(FwAction::Block, FwAction::Block));
    assert!(!action_equal(FwAction::Block, FwAction::Throttle(1.0f32.to_bits())));

    let mut fw = FirewallState::new();
    let zero = FwAction::Throttle(0.0f32.to_bits());
    let neg_zero = FwAction::Throttle((-0.0f32).to_bits());
    assert!(fw.add_idiot(idiot(0x01020304, 10 * SEC), zero).is_some());
    assert!(fw.add_idiot(idiot(0x01020304, 10 * SEC), neg_zero).is_none());
    let nan = FwAction::Throttle(f32::NAN.to_bits());
    assert!(fw.add_idiot(idiot(0x05060708, 10 * SEC), nan).is_some());
    assert!(fw.add_idiot(idiot(0x05060708, 10 * SEC), nan).is_some());
}

#[test]
fn reload_puts_every_rule_back() {
    let mut fw = FirewallState::new();
    fw.add_idiot(idiot(0x01020304, 10 * SEC), FwAction::Block);
    fw.add_idiot(idiot(0x05060708, 10 * SEC), FwAction::Block);
    let cmds = fw.reload_cmds();
    assert_eq!(cmds.len(), 3);
    assert!(matches!(cmds[0], NfCmd::FlushChain { .. }));
    match (&cmds[1], &cmds[2]) {
        (NfCmd::Add(a), NfCmd::Add(b)) => {
            assert_eq!(a.comment.as_deref(), Some("1.2.3.4/drop/idiod/GENERATED"));
            assert_eq!(b.comment.as_deref(), Some("5.6.7.8/drop/idiod/GENERATED"));
        }
        c => panic!("{c:?}"),
    }
    let cmd = fw.add_global_limit(100.0f32.to_bits(), 6000, 20 * SEC).unwrap();
    assert!(matches!(cmd, NfCmd::Add(_)));
    fw.global_limit_installed(100.0f32.to_bits(), 6000, 20 * SEC);
    let cmds = fw.reload_cmds();
    assert_eq!(cmds.len(), 4);
    match &cmds[3] {
        NfCmd::Add(r) => assert_eq!(r.comment.as_deref(), Some("any/limit-over-drop/idiod/GENERATED")),
        c => panic!("{c:?}"),
    }
    assert_eq!(fw.reload_cmds().len(), 4);
}
