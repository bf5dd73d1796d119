//! Network addresses of peers and their text form.

use vstd::prelude::*;
use crate::text::{decimal_text, hex_text, push_char, push_radix};

verus! {

/// An IP address: IPv4 as a 32 bit number, IPv6 as a 128 bit number
/// (most significant octet first).
#[derive(Clone, Copy, Debug, PartialEq, Eq, Structural, Hash)]
pub enum NetAddr {
    V4(u32),
    V6(u128),
}

/// Octet `i` (0 is the first written) of an IPv4 address.
pub open spec fn octet(a: u32, i: int) -> nat {
    ((a >> (((3 - i) * 8) as u32)) & 0xffu32) as nat
}

/// Segment `i` (0 is the first written) of an IPv6 address.
pub open spec fn segment(a: u128, i: int) -> nat {
    ((a >> (((7 - i) * 16) as u32)) & 0xffffu128) as nat
}

/// The eight segments of an IPv6 address.
pub open spec fn segments(a: u128) -> Seq<nat> {
    Seq::new(8, |i: int| segment(a, i))
}

/// Dotted decimal notation of an IPv4 address.
pub open spec fn ipv4_text(a: u32) -> Seq<char> {
    decimal_text(octet(a, 0)) + seq!['.'] + decimal_text(octet(a, 1)) + seq!['.']
        + decimal_text(octet(a, 2)) + seq!['.'] + decimal_text(octet(a, 3))
}

/// Hex segments separated by colons.
pub open spec fn colon_joined(segs: Seq<nat>) -> Seq<char>
    decreases segs.len(),
{
    if segs.len() == 0 {
        Seq::empty()
    } else if segs.len() == 1 {
        hex_text(segs[0])
    } else {
        colon_joined(segs.drop_last()) + seq![':'] + hex_text(segs.last())
    }
}

/// The IPv4 address that an IPv4-mapped IPv6 address (`::ffff:a.b.c.d`) stands for.
pub open spec fn spec_ipv4_mapped(a: u128) -> Option<u32> {
    if a >> 32u32 == 0xffffu128 {
        Some((a & 0xffff_ffffu128) as u32)
    } else {
        None
    }
}

/// The scan for the longest run of zero segments after the first `n` segments:
/// (start of the longest run, its length, start of the current run, its length).
/// A later run replaces the longest one only if it is strictly longer.
pub open spec fn zero_scan(segs: Seq<nat>, n: int) -> (int, int, int, int)
    decreases n,
{
    if n <= 0 {
        (0, 0, 0, 0)
    } else {
        let prev = zero_scan(segs, n - 1);
        if segs[n - 1] == 0 {
            let cs = if prev.3 == 0 { n - 1 } else { prev.2 };
            let cl = prev.3 + 1;
            if cl > prev.1 {
                (cs, cl, cs, cl)
            } else {
                (prev.0, prev.1, cs, cl)
            }
        } else {
            (prev.0, prev.1, 0, 0)
        }
    }
}

/// Text of an IPv6 address: an IPv4-mapped address as `::ffff:` and the
/// dotted IPv4 address, otherwise hex segments where the first longest run
/// of at least two zero segments is written as `::`.
pub open spec fn ipv6_text(a: u128) -> Seq<char> {
    match spec_ipv4_mapped(a) {
        Some(v4) => seq![':', ':', 'f', 'f', 'f', 'f', ':'] + ipv4_text(v4),
        None => {
            let segs = segments(a);
            let z = zero_scan(segs, 8);
            if z.1 > 1 {
                colon_joined(segs.subrange(0, z.0)) + seq![':', ':'] + colon_joined(
                    segs.subrange(z.0 + z.1, 8),
                )
            } else {
                colon_joined(segs)
            }
        },
    }
}

/// The text form of an address.
pub open spec fn addr_text(addr: NetAddr) -> Seq<char> {
    match addr {
        NetAddr::V4(a) => ipv4_text(a),
        NetAddr::V6(a) => ipv6_text(a),
    }
}

impl NetAddr {
    /// The IPv4 address that this IPv6 address maps, if it is IPv4-mapped
    /// (`::ffff:a.b.c.d`); `None` for an IPv4 address.
    pub fn to_ipv4_mapped(&self) -> (r: Option<u32>)
        ensures
            r == match *self {
                NetAddr::V4(_) => None,
                NetAddr::V6(a) => spec_ipv4_mapped(a),
            },
    {
        match *self {
            NetAddr::V4(_) => None,
            NetAddr::V6(a) => {
                if a >> 32u32 == 0xffffu128 {
                    Some((a & 0xffff_ffffu128) as u32)
                } else {
                    None
                }
            },
        }
    }

    /// The address in its usual text form.
    pub fn to_text(&self) -> (s: String)
        ensures
            s@ == addr_text(*self),
    {
        let mut s = String::new();
        match *self {
            NetAddr::V4(a) => push_ipv4(&mut s, a),
            NetAddr::V6(a) => push_ipv6(&mut s, a),
        }
        s
    }
}

fn get_octet(a: u32, i: u32) -> (r: u128)
    requires
        i < 4,
    ensures
        r == octet(a, i as int),
{
    let shift: u32 = (3 - i) * 8;
    let v: u32 = (a >> shift) & 0xffu32;
    v as u128
}

fn get_segment(a: u128, i: u32) -> (r: u128)
    requires
        i < 8,
    ensures
        r == segment(a, i as int),
        r < 0x10000,
{
    let shift: u32 = (7 - i) * 16;
    let v: u128 = (a >> shift) & 0xffffu128;
    assert(v <= 0xffff) by (bit_vector)
        requires
            v == (a >> shift) & 0xffffu128,
    ;
    v
}

/// Appends the dotted decimal text of an IPv4 address.
pub fn push_ipv4(s: &mut String, a: u32)
    ensures
        final(s)@ == old(s)@ + ipv4_text(a),
{
    push_radix(s, get_octet(a, 0), 10);
    push_char(s, '.');
    push_radix(s, get_octet(a, 1), 10);
    push_char(s, '.');
    push_radix(s, get_octet(a, 2), 10);
    push_char(s, '.');
    push_radix(s, get_octet(a, 3), 10);
    assert(final(s)@ =~= old(s)@ + ipv4_text(a));
}

/// Appends the colon separated hex segments `segs[from..to]`.
fn push_colon_joined(s: &mut String, segs: &Vec<u128>, from: usize, to: usize)
    requires
        from <= to <= segs.len(),
        forall|i: int| 0 <= i < segs.len() ==> segs[i] < 0x10000,
    ensures
        final(s)@ == old(s)@ + colon_joined(segs@.subrange(from as int, to as int).map_values(
            |x: u128| x as nat,
        )),
{
    let mut i = from;
    while i < to
        invariant
            from <= i <= to <= segs.len(),
            s@ == old(s)@ + colon_joined(segs@.subrange(from as int, i as int).map_values(
                |x: u128| x as nat,
            )),
        decreases to - i,
    {
        let ghost before = s@;
        if i > from {
            push_char(s, ':');
        }
        push_radix(s, segs[i], 16);
        proof {
            let prev = segs@.subrange(from as int, i as int).map_values(|x: u128| x as nat);
            let next = segs@.subrange(from as int, i + 1).map_values(|x: u128| x as nat);
            assert(next.drop_last() =~= prev);
            assert(next.last() == segs[i as int] as nat);
            if i == from {
                assert(prev.len() == 0);
                assert(next.len() == 1);
            }
        }
        i = i + 1;
    }
}

/// Appends the text of an IPv6 address.
pub fn push_ipv6(s: &mut String, a: u128)
    ensures
        final(s)@ == old(s)@ + ipv6_text(a),
{
    let mapped = NetAddr::V6(a).to_ipv4_mapped();
    match mapped {
        Some(v4) => {
            push_char(s, ':');
            push_char(s, ':');
            push_char(s, 'f');
            push_char(s, 'f');
            push_char(s, 'f');
            push_char(s, 'f');
            push_char(s, ':');
            push_ipv4(s, v4);
            assert(final(s)@ =~= old(s)@ + ipv6_text(a));
        },
        None => {
            let mut segs: Vec<u128> = Vec::new();
            let mut i: u32 = 0;
            while i < 8
                invariant
                    i <= 8,
                    segs.len() == i,
                    forall|j: int| 0 <= j < i ==> segs[j] == segment(a, j),
                    forall|j: int| 0 <= j < i ==> segs[j] < 0x10000,
                decreases 8 - i,
            {
                segs.push(get_segment(a, i));
                i = i + 1;
            }
            let ghost gsegs = segments(a);
            assert(segs@.map_values(|x: u128| x as nat) =~= gsegs);
            let mut longest_start: usize = 0;
            let mut longest_len: usize = 0;
            let mut cur_start: usize = 0;
            let mut cur_len: usize = 0;
            let mut k: usize = 0;
            while k < 8
                invariant
                    k <= 8,
                    segs.len() == 8,
                    forall|j: int| 0 <= j < 8 ==> segs[j] as nat == gsegs[j],
                    forall|j: int| 0 <= j < 8 ==> segs[j] < 0x10000,
                    gsegs == segments(a),
                    zero_scan(gsegs, k as int) == (
                        longest_start as int,
                        longest_len as int,
                        cur_start as int,
                        cur_len as int,
                    ),
                    longest_start + longest_len <= k,
                    cur_start + cur_len <= k,
                decreases 8 - k,
            {
                if segs[k] == 0 {
                    if cur_len == 0 {
                        cur_start = k;
                    }
                    cur_len = cur_len + 1;
                    if cur_len > longest_len {
                        longest_start = cur_start;
                        longest_len = cur_len;
                    }
                } else {
                    cur_start = 0;
                    cur_len = 0;
                }
                k = k + 1;
            }
            if longest_len > 1 {
                push_colon_joined(s, &segs, 0, longest_start);
                push_char(s, ':');
                push_char(s, ':');
                push_colon_joined(s, &segs, longest_start + longest_len, 8);
                assert(segs@.subrange(0, longest_start as int).map_values(|x: u128| x as nat)
                    =~= gsegs.subrange(0, longest_start as int));
                assert(segs@.subrange((longest_start + longest_len) as int, 8).map_values(
                    |x: u128| x as nat,
                ) =~= gsegs.subrange((longest_start + longest_len) as int, 8));
            } else {
                push_colon_joined(s, &segs, 0, 8);
                assert(segs@.subrange(0, 8).map_values(|x: u128| x as nat) =~= gsegs);
            }
            assert(final(s)@ =~= old(s)@ + ipv6_text(a));
        },
    }
}

} // verus!
