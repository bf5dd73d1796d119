use idiod::netaddr::NetAddr;

fn v6(segs: [u16; 8]) -> NetAddr {
    let mut a: u128 = 0;
    for s in segs {
        a = (a << 16) | s as u128;
    }
    NetAddr::V6(a)
}

#[test]
fn ipv4_text_is_dotted_decimal() {
    assert_eq!(NetAddr::V4(0x7f000001).to_text(), "127.0.0.1");
    assert_eq!(NetAddr::V4(0).to_text(), "0.0.0.0");
    assert_eq!(NetAddr::V4(0xffffffff).to_text(), "255.255.255.255");
    assert_eq!(NetAddr::V4(0x0a00_2a05).to_text(), "10.0.42.5");
}

#[test]
fn ipv6_text_compresses_longest_zero_run() {
    let cases: [([u16; 8], &str); 13] = [
        ([0, 0, 0, 0, 0, 0, 0, 0], "::"),
        ([0, 0, 0, 0, 0, 0, 0, 1], "::1"),
        ([1, 0, 0, 0, 0, 0, 0, 0], "1::"),
        ([0x2001, 0xdb8, 0, 0, 0, 0, 0, 1], "2001:db8::1"),
        ([0x2001, 0xdb8, 0, 0, 1, 0, 0, 1], "2001:db8::1:0:0:1"),
        ([0x2001, 0, 0, 1, 0, 0, 0, 1], "2001:0:0:1::1"),
        ([1, 0, 2, 0, 3, 0, 4, 0], "1:0:2:0:3:0:4:0"),
        ([0xfe80, 0, 0, 0, 1, 2, 3, 4], "fe80::1:2:3:4"),
        ([1, 2, 3, 4, 5, 6, 7, 8], "1:2:3:4:5:6:7:8"),
        ([0, 0, 0, 0, 0, 0xffff, 0x0102, 0x0304], "::ffff:1.2.3.4"),
        ([0, 0, 0, 0, 0, 0, 0x0102, 0x0304], "::102:304"),
        ([0, 0, 1, 0, 0, 0, 0, 0], "0:0:1::"),
        ([1, 0, 0, 2, 0, 0, 3, 4], "1::2:0:0:3:4"),
    ];
    for (segs, text) in cases {
        assert_eq!(v6(segs).to_text(), text);
    }
    assert_eq!(
        v6([0xabcd, 0xef01, 0x2345, 0x6789, 0xabcd, 0xef01, 0x2345, 0x6789]).to_text(),
        "abcd:ef01:2345:6789:abcd:ef01:2345:6789"
    );
}

#[test]
fn ipv4_mapped_addresses() {
    assert_eq!(v6([0, 0, 0, 0, 0, 0xffff, 0xc0a8, 0x0107]).to_ipv4_mapped(), Some(0xc0a8_0107));
    assert_eq!(v6([0, 0, 0, 0, 0, 0, 0, 1]).to_ipv4_mapped(), None);
    assert_eq!(v6([0, 0, 0, 0, 1, 0xffff, 0, 1]).to_ipv4_mapped(), None);
    assert_eq!(NetAddr::V4(5).to_ipv4_mapped(), None);
}
