//! The text of an address identifies the address: different addresses are
//! written differently, so the rule comment made from it identifies a rule.

use vstd::prelude::*;
use crate::netaddr::{
    addr_text, colon_joined, ipv4_text, ipv6_text, octet, segments, spec_ipv4_mapped,
    zero_scan, NetAddr,
};
use crate::text::{decimal_text, digit_char, hex_text, radix_text};

verus! {

/// `t` holds no `c`.
pub open spec fn lacks(t: Seq<char>, c: char) -> bool {
    forall|i: int| 0 <= i < t.len() ==> t[i] != c
}

/// A decimal or lower-case hex digit.
pub open spec fn is_digit_char(c: char) -> bool {
    ('0' <= c <= '9') || ('a' <= c <= 'f')
}

/// Every character of `t` is a digit.
pub open spec fn all_digit_chars(t: Seq<char>) -> bool {
    forall|i: int| 0 <= i < t.len() ==> is_digit_char(#[trigger] t[i])
}

/// Two colons follow each other at `i`.
pub open spec fn double_colon_at(t: Seq<char>, i: int) -> bool {
    0 <= i && i + 1 < t.len() && t[i] == ':' && t[i + 1] == ':'
}

/// No two colons follow each other in `t`.
pub open spec fn no_double_colon(t: Seq<char>) -> bool {
    forall|i: int| !#[trigger] double_colon_at(t, i)
}

/// A character of an address text: a digit, a colon or a dot.
pub open spec fn addr_char(c: char) -> bool {
    is_digit_char(c) || c == ':' || c == '.'
}

/// Every character of `t` is one of an address text.
pub open spec fn all_addr_chars(t: Seq<char>) -> bool {
    forall|i: int| 0 <= i < t.len() ==> addr_char(#[trigger] t[i])
}

proof fn lemma_digit_char(d: nat)
    requires
        d < 16,
    ensures
        is_digit_char(digit_char(d)),
        digit_char(d) != ':',
        digit_char(d) != '.',
        d < 10 ==> digit_char(d) as u32 == 48 + d,
        d >= 10 ==> digit_char(d) as u32 == 87 + d,
{
}

proof fn lemma_digit_char_inj(d1: nat, d2: nat)
    requires
        d1 < 16,
        d2 < 16,
        digit_char(d1) == digit_char(d2),
    ensures
        d1 == d2,
{
    lemma_digit_char(d1);
    lemma_digit_char(d2);
}

/// The digits of a number: at least one, more than one from the radix on.
proof fn lemma_radix_text(n: nat, r: nat)
    requires
        r == 10 || r == 16,
    ensures
        radix_text(n, r).len() >= 1,
        all_digit_chars(radix_text(n, r)),
        n < r ==> radix_text(n, r).len() == 1,
        n >= r ==> radix_text(n, r).len() >= 2,
    decreases n,
{
    if n < r {
        lemma_digit_char(n);
    } else {
        assert(n / r < n) by (nonlinear_arith)
            requires
                r >= 2,
                n >= r,
        ;
        lemma_radix_text(n / r, r);
        lemma_digit_char(n % r);
        let t = radix_text(n, r);
        let p = radix_text(n / r, r);
        assert(t == p.push(digit_char(n % r)));
        assert forall|i: int| 0 <= i < t.len() implies is_digit_char(#[trigger] t[i]) by {
            if i < p.len() {
                assert(t[i] == p[i]);
            }
        }
    }
}

/// The digits of a number determine it.
proof fn lemma_radix_text_inj(a: nat, b: nat, r: nat)
    requires
        r == 10 || r == 16,
        radix_text(a, r) == radix_text(b, r),
    ensures
        a == b,
    decreases a,
{
    lemma_radix_text(a, r);
    lemma_radix_text(b, r);
    if a < r {
        assert(b < r);
        assert(radix_text(a, r)[0] == digit_char(a));
        assert(radix_text(b, r)[0] == digit_char(b));
        lemma_digit_char_inj(a, b);
    } else {
        assert(b >= r);
        let ta = radix_text(a, r);
        let tb = radix_text(b, r);
        assert(ta.drop_last() == radix_text(a / r, r));
        assert(tb.drop_last() == radix_text(b / r, r));
        assert(a / r < a) by (nonlinear_arith)
            requires
                r >= 2,
                a >= r,
        ;
        lemma_radix_text_inj(a / r, b / r, r);
        assert(ta.last() == digit_char(a % r));
        assert(tb.last() == digit_char(b % r));
        lemma_digit_char_inj(a % r, b % r);
        assert(a == (a / r) * r + a % r && b == (b / r) * r + b % r) by (nonlinear_arith)
            requires
                r >= 2,
        ;
    }
}

/// Splitting at the first separator: the parts before it hold no separator.
proof fn lemma_split_first(x: Seq<char>, y: Seq<char>, x2: Seq<char>, y2: Seq<char>, s: char)
    requires
        lacks(x, s),
        lacks(x2, s),
        x + seq![s] + y == x2 + seq![s] + y2,
    ensures
        x == x2,
        y == y2,
{
    let t = x + seq![s] + y;
    let t2 = x2 + seq![s] + y2;
    if x.len() < x2.len() {
        assert(t[x.len() as int] == s);
        assert(t2[x.len() as int] == x2[x.len() as int]);
    } else if x2.len() < x.len() {
        assert(t2[x2.len() as int] == s);
        assert(t[x2.len() as int] == x[x2.len() as int]);
    }
    assert(x =~= t.subrange(0, x.len() as int));
    assert(x2 =~= t2.subrange(0, x.len() as int));
    assert(y =~= t.subrange(x.len() + 1int, t.len() as int));
    assert(y2 =~= t2.subrange(x.len() + 1int, t.len() as int));
}

/// Splitting at the last separator: the parts after it hold no separator.
proof fn lemma_split_last(x: Seq<char>, y: Seq<char>, x2: Seq<char>, y2: Seq<char>, s: char)
    requires
        lacks(y, s),
        lacks(y2, s),
        x + seq![s] + y == x2 + seq![s] + y2,
    ensures
        x == x2,
        y == y2,
{
    let t = x + seq![s] + y;
    let t2 = x2 + seq![s] + y2;
    assert(t.len() == t2.len());
    if y.len() < y2.len() {
        let i = t.len() - 1 - y.len();
        assert(t[i] == s);
        assert(t2[i] == y2[i - x2.len() - 1]);
    } else if y2.len() < y.len() {
        let i = t.len() - 1 - y2.len();
        assert(t2[i] == s);
        assert(t[i] == y[i - x.len() - 1]);
    }
    assert(x =~= t.subrange(0, x.len() as int));
    assert(x2 =~= t2.subrange(0, x.len() as int));
    assert(y =~= t.subrange(x.len() + 1int, t.len() as int));
    assert(y2 =~= t2.subrange(x.len() + 1int, t.len() as int));
}

proof fn lemma_digits_lack(t: Seq<char>)
    requires
        all_digit_chars(t),
    ensures
        lacks(t, ':'),
        lacks(t, '.'),
        no_double_colon(t),
{
    assert forall|i: int| 0 <= i < t.len() implies t[i] != ':' && t[i] != '.' by {
        assert(is_digit_char(t[i]));
    }
    assert forall|i: int| !#[trigger] double_colon_at(t, i) by {
        if double_colon_at(t, i) {
            assert(is_digit_char(t[i]));
        }
    }
}

/// The digits of a number hold neither separator.
proof fn lemma_digits_of(n: nat, r: nat)
    requires
        r == 10 || r == 16,
    ensures
        radix_text(n, r).len() >= 1,
        all_digit_chars(radix_text(n, r)),
        lacks(radix_text(n, r), ':'),
        lacks(radix_text(n, r), '.'),
        no_double_colon(radix_text(n, r)),
        all_addr_chars(radix_text(n, r)),
{
    lemma_radix_text(n, r);
    lemma_digits_lack(radix_text(n, r));
    assert forall|i: int| 0 <= i < radix_text(n, r).len() implies addr_char(
        #[trigger] radix_text(n, r)[i],
    ) by {
        assert(is_digit_char(radix_text(n, r)[i]));
    }
}

/// `x + [s] + y` holds only address characters when its parts do.
proof fn lemma_join_addr_chars(x: Seq<char>, s: char, y: Seq<char>)
    requires
        all_addr_chars(x),
        all_addr_chars(y),
        addr_char(s),
    ensures
        all_addr_chars(x + seq![s] + y),
{
    let t = x + seq![s] + y;
    assert forall|i: int| 0 <= i < t.len() implies addr_char(#[trigger] t[i]) by {
        if i < x.len() {
            assert(t[i] == x[i]);
        } else if i > x.len() {
            assert(t[i] == y[i - x.len() - 1]);
        }
    }
}

/// `x + [s] + y` lacks `c` when neither part holds it and `s` is not `c`.
proof fn lemma_join_lacks(x: Seq<char>, s: char, y: Seq<char>, c: char)
    requires
        lacks(x, c),
        lacks(y, c),
        s != c,
    ensures
        lacks(x + seq![s] + y, c),
{
    let t = x + seq![s] + y;
    assert forall|i: int| 0 <= i < t.len() implies t[i] != c by {
        if i < x.len() {
            assert(t[i] == x[i]);
        } else if i > x.len() {
            assert(t[i] == y[i - x.len() - 1]);
        }
    }
}

/// The dotted text of an IPv4 address determines it; it holds no colon.
proof fn lemma_ipv4_text(a: u32, b: u32)
    ensures
        ipv4_text(a) == ipv4_text(b) ==> a == b,
        lacks(ipv4_text(a), ':'),
        !lacks(ipv4_text(a), '.'),
        all_addr_chars(ipv4_text(a)),
        ipv4_text(a).len() >= 7,
{
    let a0 = decimal_text(octet(a, 0));
    let a1 = decimal_text(octet(a, 1));
    let a2 = decimal_text(octet(a, 2));
    let a3 = decimal_text(octet(a, 3));
    let b0 = decimal_text(octet(b, 0));
    let b1 = decimal_text(octet(b, 1));
    let b2 = decimal_text(octet(b, 2));
    let b3 = decimal_text(octet(b, 3));
    lemma_digits_of(octet(a, 0), 10);
    lemma_digits_of(octet(a, 1), 10);
    lemma_digits_of(octet(a, 2), 10);
    lemma_digits_of(octet(a, 3), 10);
    lemma_digits_of(octet(b, 0), 10);
    lemma_digits_of(octet(b, 1), 10);
    lemma_digits_of(octet(b, 2), 10);
    lemma_digits_of(octet(b, 3), 10);
    let dot = seq!['.'];
    let ta = ipv4_text(a);
    let tb = ipv4_text(b);
    assert(ta =~= a0 + dot + (a1 + dot + (a2 + dot + a3)));
    assert(tb =~= b0 + dot + (b1 + dot + (b2 + dot + b3)));
    lemma_join_lacks(a2, '.', a3, ':');
    lemma_join_lacks(a1, '.', a2 + dot + a3, ':');
    lemma_join_lacks(a0, '.', a1 + dot + (a2 + dot + a3), ':');
    lemma_join_addr_chars(a2, '.', a3);
    lemma_join_addr_chars(a1, '.', a2 + dot + a3);
    lemma_join_addr_chars(a0, '.', a1 + dot + (a2 + dot + a3));
    assert(ta[a0.len() as int] == '.');
    if ta == tb {
        lemma_split_first(a0, a1 + dot + (a2 + dot + a3), b0, b1 + dot + (b2 + dot + b3), '.');
        lemma_split_first(a1, a2 + dot + a3, b1, b2 + dot + b3, '.');
        lemma_split_first(a2, a3, b2, b3, '.');
        lemma_radix_text_inj(octet(a, 0), octet(b, 0), 10);
        lemma_radix_text_inj(octet(a, 1), octet(b, 1), 10);
        lemma_radix_text_inj(octet(a, 2), octet(b, 2), 10);
        lemma_radix_text_inj(octet(a, 3), octet(b, 3), 10);
        assert(a == b) by (bit_vector)
            requires
                (a >> 24u32) & 0xffu32 == (b >> 24u32) & 0xffu32,
                (a >> 16u32) & 0xffu32 == (b >> 16u32) & 0xffu32,
                (a >> 8u32) & 0xffu32 == (b >> 8u32) & 0xffu32,
                (a >> 0u32) & 0xffu32 == (b >> 0u32) & 0xffu32,
        ;
    }
}

/// The shape of colon separated hex segments.
proof fn lemma_colon_joined(segs: Seq<nat>)
    ensures
        (colon_joined(segs).len() == 0) == (segs.len() == 0),
        all_addr_chars(colon_joined(segs)),
        lacks(colon_joined(segs), '.'),
        no_double_colon(colon_joined(segs)),
        segs.len() >= 1 ==> is_digit_char(colon_joined(segs)[0]),
        segs.len() >= 1 ==> is_digit_char(colon_joined(segs).last()),
        segs.len() >= 2 ==> !lacks(colon_joined(segs), ':'),
    decreases segs.len(),
{
    let t = colon_joined(segs);
    if segs.len() == 1 {
        lemma_digits_of(segs[0], 16);
        assert(is_digit_char(t[0]));
        assert(is_digit_char(t[t.len() - 1]));
    } else if segs.len() >= 2 {
        let p = colon_joined(segs.drop_last());
        let h = hex_text(segs.last());
        lemma_colon_joined(segs.drop_last());
        lemma_digits_of(segs.last(), 16);
        assert(t == p + seq![':'] + h);
        assert(t[p.len() as int] == ':');
        assert(is_digit_char(h[0]));
        assert(is_digit_char(h[h.len() - 1]));
        assert(t[0] == p[0]);
        assert(t[t.len() - 1] == h[h.len() - 1]);
        assert forall|i: int| 0 <= i < t.len() implies addr_char(#[trigger] t[i]) && t[i] != '.' by {
            if i < p.len() {
                assert(t[i] == p[i]);
            } else if i > p.len() {
                assert(t[i] == h[i - p.len() - 1]);
                assert(is_digit_char(h[i - p.len() - 1]));
            }
        }
        assert forall|i: int| !#[trigger] double_colon_at(t, i) by {
            if double_colon_at(t, i) {
                if i + 1 < p.len() {
                    assert(t[i] == p[i] && t[i + 1] == p[i + 1]);
                    assert(double_colon_at(p, i));
                } else if i + 1 == p.len() {
                    assert(t[i] == p[p.len() - 1]);
                } else if i == p.len() {
                    assert(t[i + 1] == h[0]);
                } else {
                    assert(t[i] == h[i - p.len() - 1]);
                    assert(is_digit_char(h[i - p.len() - 1]));
                }
            }
        }
    }
}

/// Colon separated hex segments determine the segments.
proof fn lemma_colon_joined_inj(s1: Seq<nat>, s2: Seq<nat>)
    requires
        colon_joined(s1) == colon_joined(s2),
    ensures
        s1 == s2,
    decreases s1.len(),
{
    lemma_colon_joined(s1);
    lemma_colon_joined(s2);
    if s1.len() == 0 {
        assert(s1 =~= s2);
    } else if s1.len() == 1 {
        lemma_digits_of(s1[0], 16);
        if s2.len() >= 2 {
            assert(false);
        }
        lemma_radix_text_inj(s1[0], s2[0], 16);
        assert(s1 =~= s2);
    } else {
        if s2.len() == 1 {
            lemma_digits_of(s2[0], 16);
            assert(false);
        }
        lemma_digits_of(s1.last(), 16);
        lemma_digits_of(s2.last(), 16);
        lemma_split_last(
            colon_joined(s1.drop_last()),
            hex_text(s1.last()),
            colon_joined(s2.drop_last()),
            hex_text(s2.last()),
            ':',
        );
        lemma_colon_joined_inj(s1.drop_last(), s2.drop_last());
        lemma_radix_text_inj(s1.last(), s2.last(), 16);
        assert(s1 =~= s1.drop_last().push(s1.last()));
        assert(s2 =~= s2.drop_last().push(s2.last()));
    }
}

/// The scan finds runs of zero segments within the first `n` segments.
proof fn lemma_zero_scan(segs: Seq<nat>, n: int)
    requires
        0 <= n <= segs.len(),
    ensures
        ({
            let z = zero_scan(segs, n);
            &&& 0 <= z.0
            &&& 0 <= z.1
            &&& z.0 + z.1 <= n
            &&& forall|i: int| z.0 <= i < z.0 + z.1 ==> segs[i] == 0
            &&& 0 <= z.3
            &&& z.3 > 0 ==> z.2 + z.3 == n && z.2 >= 0
            &&& z.3 > 0 ==> forall|i: int| z.2 <= i < n ==> segs[i] == 0
        }),
    decreases n,
{
    if n > 0 {
        lemma_zero_scan(segs, n - 1);
    }
}

proof fn lemma_segment_value(a: u128, i: int, sh: u32)
    requires
        0 <= i < 8,
        sh == (7 - i) * 16,
    ensures
        segments(a)[i] == ((a >> sh) & 0xffffu128) as nat,
{
}

/// The eight segments determine an IPv6 address.
proof fn lemma_segments_inj(a: u128, b: u128)
    requires
        segments(a) == segments(b),
    ensures
        a == b,
{
    lemma_segment_value(a, 0, 112);
    lemma_segment_value(b, 0, 112);
    lemma_segment_value(a, 1, 96);
    lemma_segment_value(b, 1, 96);
    lemma_segment_value(a, 2, 80);
    lemma_segment_value(b, 2, 80);
    lemma_segment_value(a, 3, 64);
    lemma_segment_value(b, 3, 64);
    lemma_segment_value(a, 4, 48);
    lemma_segment_value(b, 4, 48);
    lemma_segment_value(a, 5, 32);
    lemma_segment_value(b, 5, 32);
    lemma_segment_value(a, 6, 16);
    lemma_segment_value(b, 6, 16);
    lemma_segment_value(a, 7, 0);
    lemma_segment_value(b, 7, 0);
    assert(a == b) by (bit_vector)
        requires
            (a >> 112u32) & 0xffffu128 == (b >> 112u32) & 0xffffu128,
            (a >> 96u32) & 0xffffu128 == (b >> 96u32) & 0xffffu128,
            (a >> 80u32) & 0xffffu128 == (b >> 80u32) & 0xffffu128,
            (a >> 64u32) & 0xffffu128 == (b >> 64u32) & 0xffffu128,
            (a >> 48u32) & 0xffffu128 == (b >> 48u32) & 0xffffu128,
            (a >> 32u32) & 0xffffu128 == (b >> 32u32) & 0xffffu128,
            (a >> 16u32) & 0xffffu128 == (b >> 16u32) & 0xffffu128,
            (a >> 0u32) & 0xffffu128 == (b >> 0u32) & 0xffffu128,
    ;
}

/// Splitting at a `::` that neither left part holds and that no left part
/// touches with a colon of its own.
proof fn lemma_split_double_colon(x1: Seq<char>, y1: Seq<char>, x2: Seq<char>, y2: Seq<char>)
    requires
        no_double_colon(x1),
        no_double_colon(x2),
        x1.len() > 0 ==> is_digit_char(x1.last()),
        x2.len() > 0 ==> is_digit_char(x2.last()),
        x1 + seq![':', ':'] + y1 == x2 + seq![':', ':'] + y2,
    ensures
        x1 == x2,
        y1 == y2,
{
    let t1 = x1 + seq![':', ':'] + y1;
    let t2 = x2 + seq![':', ':'] + y2;
    if x1.len() < x2.len() {
        let i = x1.len() as int;
        assert(t1[i] == ':' && t1[i + 1] == ':');
        if i + 1 < x2.len() {
            assert(t2[i] == x2[i] && t2[i + 1] == x2[i + 1]);
            assert(double_colon_at(x2, i));
        } else {
            assert(t2[i] == x2[x2.len() - 1]);
        }
    } else if x2.len() < x1.len() {
        let i = x2.len() as int;
        assert(t2[i] == ':' && t2[i + 1] == ':');
        if i + 1 < x1.len() {
            assert(t1[i] == x1[i] && t1[i + 1] == x1[i + 1]);
            assert(double_colon_at(x1, i));
        } else {
            assert(t1[i] == x1[x1.len() - 1]);
        }
    }
    assert(x1 =~= t1.subrange(0, x1.len() as int));
    assert(x2 =~= t2.subrange(0, x1.len() as int));
    assert(y1 =~= t1.subrange(x1.len() + 2int, t1.len() as int));
    assert(y2 =~= t2.subrange(x1.len() + 2int, t1.len() as int));
}

/// The text of an IPv4-mapped address.
pub open spec fn mapped_text(v4: u32) -> Seq<char> {
    seq![':', ':', 'f', 'f', 'f', 'f', ':'] + ipv4_text(v4)
}

/// The compressed text of segments with a run of zeros left out.
pub open spec fn compressed_text(front: Seq<nat>, back: Seq<nat>) -> Seq<char> {
    colon_joined(front) + seq![':', ':'] + colon_joined(back)
}

proof fn lemma_mapped_text(v4: u32)
    ensures
        all_addr_chars(mapped_text(v4)),
        !lacks(mapped_text(v4), ':'),
        !lacks(mapped_text(v4), '.'),
        mapped_text(v4).len() >= 2,
{
    let p = seq![':', ':', 'f', 'f', 'f', 'f', ':'];
    let t = mapped_text(v4);
    lemma_ipv4_text(v4, v4);
    assert(t[0] == ':');
    let w = choose|i: int| 0 <= i < ipv4_text(v4).len() && ipv4_text(v4)[i] == '.';
    assert(t[7 + w] == ipv4_text(v4)[w]);
    assert forall|i: int| 0 <= i < t.len() implies addr_char(#[trigger] t[i]) by {
        if i >= 7 {
            assert(t[i] == ipv4_text(v4)[i - 7]);
        } else {
            assert(t[i] == p[i]);
        }
    }
}

proof fn lemma_compressed_text(front: Seq<nat>, back: Seq<nat>)
    ensures
        all_addr_chars(compressed_text(front, back)),
        !lacks(compressed_text(front, back), ':'),
        lacks(compressed_text(front, back), '.'),
        compressed_text(front, back).len() >= 2,
        double_colon_at(compressed_text(front, back), colon_joined(front).len() as int),
{
    let x = colon_joined(front);
    let y = colon_joined(back);
    let t = compressed_text(front, back);
    lemma_colon_joined(front);
    lemma_colon_joined(back);
    assert(t =~= (x + seq![':']) + seq![':'] + y);
    assert(t[x.len() as int] == ':' && t[x.len() + 1int] == ':');
    assert forall|i: int| 0 <= i < t.len() implies addr_char(#[trigger] t[i]) && t[i] != '.' by {
        if i < x.len() {
            assert(t[i] == x[i]);
        } else if i >= x.len() + 2 {
            assert(t[i] == y[i - x.len() - 2]);
        }
    }
}

/// The shape of the text of an IPv6 address.
proof fn lemma_ipv6_text(a: u128)
    ensures
        all_addr_chars(ipv6_text(a)),
        !lacks(ipv6_text(a), ':'),
        ipv6_text(a).len() >= 2,
        lacks(ipv6_text(a), '.') == (spec_ipv4_mapped(a) is None),
{
    match spec_ipv4_mapped(a) {
        Some(v4) => {
            lemma_mapped_text(v4);
            assert(ipv6_text(a) == mapped_text(v4));
        },
        None => {
            let segs = segments(a);
            let z = zero_scan(segs, 8);
            lemma_zero_scan(segs, 8);
            if z.1 > 1 {
                lemma_compressed_text(segs.subrange(0, z.0), segs.subrange(z.0 + z.1, 8));
                assert(ipv6_text(a) == compressed_text(
                    segs.subrange(0, z.0),
                    segs.subrange(z.0 + z.1, 8),
                ));
            } else {
                lemma_colon_joined(segs);
                assert(colon_joined(segs).len() >= 2) by {
                    let w = choose|i: int|
                        0 <= i < colon_joined(segs).len() && colon_joined(segs)[i] == ':';
                    assert(is_digit_char(colon_joined(segs)[0]));
                }
            }
        },
    }
}

/// Two IPv4-mapped addresses with the same mapped IPv4 address are equal.
proof fn lemma_mapped_inj(a: u128, b: u128)
    requires
        spec_ipv4_mapped(a) is Some,
        spec_ipv4_mapped(a) == spec_ipv4_mapped(b),
    ensures
        a == b,
{
    assert(a == b) by (bit_vector)
        requires
            a >> 32u32 == 0xffffu128,
            b >> 32u32 == 0xffffu128,
            (a & 0xffff_ffffu128) as u32 == (b & 0xffff_ffffu128) as u32,
    ;
}

/// The text of an IPv6 address determines it.
proof fn lemma_ipv6_text_inj(a: u128, b: u128)
    requires
        ipv6_text(a) == ipv6_text(b),
    ensures
        a == b,
{
    lemma_ipv6_text(a);
    lemma_ipv6_text(b);
    match (spec_ipv4_mapped(a), spec_ipv4_mapped(b)) {
        (Some(va), Some(vb)) => {
            let ta = mapped_text(va);
            let tb = mapped_text(vb);
            assert(ipv4_text(va) =~= ta.subrange(7, ta.len() as int));
            assert(ipv4_text(vb) =~= tb.subrange(7, tb.len() as int));
            lemma_ipv4_text(va, vb);
            lemma_mapped_inj(a, b);
        },
        (None, None) => {
            let sa = segments(a);
            let sb = segments(b);
            let za = zero_scan(sa, 8);
            let zb = zero_scan(sb, 8);
            lemma_zero_scan(sa, 8);
            lemma_zero_scan(sb, 8);
            let fa = sa.subrange(0, za.0);
            let ba = sa.subrange(za.0 + za.1, 8);
            let fb = sb.subrange(0, zb.0);
            let bb = sb.subrange(zb.0 + zb.1, 8);
            if za.1 > 1 && zb.1 > 1 {
                lemma_colon_joined(fa);
                lemma_colon_joined(fb);
                lemma_split_double_colon(colon_joined(fa), colon_joined(ba), colon_joined(fb), colon_joined(bb));
                lemma_colon_joined_inj(fa, fb);
                lemma_colon_joined_inj(ba, bb);
                assert(fa.len() == fb.len());
                assert(ba.len() == bb.len());
                assert forall|i: int| 0 <= i < 8 implies sa[i] == sb[i] by {
                    if i < za.0 {
                        assert(sa[i] == fa[i] && sb[i] == fb[i]);
                    } else if i >= za.0 + za.1 {
                        assert(sa[i] == ba[i - za.0 - za.1] && sb[i] == bb[i - za.0 - za.1]);
                    }
                }
                assert(sa =~= sb);
                lemma_segments_inj(a, b);
            } else if za.1 > 1 {
                lemma_compressed_text(fa, ba);
                lemma_colon_joined(sb);
                assert(double_colon_at(colon_joined(sb), colon_joined(fa).len() as int));
            } else if zb.1 > 1 {
                lemma_compressed_text(fb, bb);
                lemma_colon_joined(sa);
                assert(double_colon_at(colon_joined(sa), colon_joined(fb).len() as int));
            } else {
                lemma_colon_joined_inj(sa, sb);
                lemma_segments_inj(a, b);
            }
        },
        (Some(_), None) => {
            assert(false);
        },
        (None, Some(_)) => {
            assert(false);
        },
    }
}

/// Different addresses have different texts.
pub proof fn lemma_addr_text_inj(a: NetAddr, b: NetAddr)
    ensures
        addr_text(a) == addr_text(b) <==> a == b,
        all_addr_chars(addr_text(a)),
        addr_text(a).len() >= 2,
{
    match a {
        NetAddr::V4(x) => lemma_ipv4_text(x, x),
        NetAddr::V6(x) => lemma_ipv6_text(x),
    }
    if addr_text(a) == addr_text(b) {
        match (a, b) {
            (NetAddr::V4(x), NetAddr::V4(y)) => lemma_ipv4_text(x, y),
            (NetAddr::V6(x), NetAddr::V6(y)) => lemma_ipv6_text_inj(x, y),
            (NetAddr::V4(x), NetAddr::V6(y)) => {
                lemma_ipv4_text(x, x);
                lemma_ipv6_text(y);
            },
            (NetAddr::V6(x), NetAddr::V4(y)) => {
                lemma_ipv4_text(y, y);
                lemma_ipv6_text(x);
            },
        }
    }
}

} // verus!
