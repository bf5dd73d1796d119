//! The idiod protocol message: `idiod v1; <app>; <address>; <bytes>; <path>`.

use vstd::prelude::*;
use crate::netaddr::NetAddr;
use crate::text::{decimal_text, digit_char, push_char, radix_text};

verus! {

/// The version field of the protocol.
pub open spec fn protocol_version() -> Seq<char> {
    "idiod v1"@
}

/// `char::is_whitespace`: the Unicode `White_Space` characters.
pub open spec fn is_whitespace(c: char) -> bool {
    let u = c as u32;
    ||| 0x09 <= u <= 0x0d
    ||| u == 0x20
    ||| u == 0x85
    ||| u == 0xa0
    ||| u == 0x1680
    ||| 0x2000 <= u <= 0x200a
    ||| u == 0x2028
    ||| u == 0x2029
    ||| u == 0x202f
    ||| u == 0x205f
    ||| u == 0x3000
}

/// `s` without leading whitespace.
pub open spec fn trim_start(s: Seq<char>) -> Seq<char>
    decreases s.len(),
{
    if s.len() > 0 && is_whitespace(s[0]) {
        trim_start(s.drop_first())
    } else {
        s
    }
}

/// `s` without trailing whitespace.
pub open spec fn trim_end(s: Seq<char>) -> Seq<char>
    decreases s.len(),
{
    if s.len() > 0 && is_whitespace(s.last()) {
        trim_end(s.drop_last())
    } else {
        s
    }
}

/// `str::trim`: `s` without leading and trailing whitespace.
pub open spec fn trimmed(s: Seq<char>) -> Seq<char> {
    trim_end(trim_start(s))
}

/// `str::split`: the pieces of `s` between the occurrences of `d`
/// (one more piece than occurrences).
pub open spec fn split_pieces(s: Seq<char>, d: char) -> Seq<Seq<char>>
    decreases s.len(),
{
    if s.len() == 0 {
        seq![Seq::empty()]
    } else {
        let rest = split_pieces(s.drop_last(), d);
        if s.last() == d {
            rest.push(Seq::empty())
        } else {
            rest.update(rest.len() - 1, rest.last().push(s.last()))
        }
    }
}

/// The value of a sequence of decimal digits.
pub open spec fn digits_value(s: Seq<char>) -> nat
    decreases s.len(),
{
    if s.len() == 0 {
        0
    } else {
        digits_value(s.drop_last()) * 10 + ((s.last() as u32) - 48) as nat
    }
}

/// `s` is a non-empty sequence of ASCII decimal digits.
pub open spec fn all_digits(s: Seq<char>) -> bool {
    s.len() > 0 && forall|i: int| 0 <= i < s.len() ==> '0' <= #[trigger] s[i] <= '9'
}

/// `usize::from_str`: an optional `+`, then decimal digits, within range.
pub open spec fn parse_usize(s: Seq<char>) -> Option<usize> {
    let digits = if s.len() > 0 && s[0] == '+' { s.drop_first() } else { s };
    if all_digits(digits) && digits_value(digits) <= usize::MAX {
        Some(digits_value(digits) as usize)
    } else {
        None
    }
}

/// Why a message was refused.
#[derive(Clone, Debug)]
pub enum MessageError {
    MissingVersion,
    /// The version field, as received.
    UnsupportedVersion(String),
    MissingApp,
    MissingAddr,
    InvalidAddr,
    MissingXfer,
    InvalidXfer,
    MissingPath,
}

/// A request reported to the daemon.
#[derive(Clone, Debug)]
pub struct Message {
    stamp: u64,
    app: String,
    net_addr: NetAddr,
    net_xfer: usize,
    path: String,
}

impl Message {
    pub closed spec fn spec_stamp(&self) -> u64 {
        self.stamp
    }

    pub closed spec fn spec_app(&self) -> Seq<char> {
        self.app@
    }

    pub closed spec fn spec_net_addr(&self) -> NetAddr {
        self.net_addr
    }

    pub closed spec fn spec_net_xfer(&self) -> usize {
        self.net_xfer
    }

    pub closed spec fn spec_path(&self) -> Seq<char> {
        self.path@
    }

    /// A message with the given fields.
    pub fn new(stamp: u64, app: String, net_addr: NetAddr, net_xfer: usize, path: String) -> (r: Self)
        ensures
            r.spec_stamp() == stamp,
            r.spec_app() == app@,
            r.spec_net_addr() == net_addr,
            r.spec_net_xfer() == net_xfer,
            r.spec_path() == path@,
    {
        Self { stamp, app, net_addr, net_xfer, path }
    }

    /// The time stamp of this message.
    pub fn stamp(&self) -> (r: u64)
        ensures
            r == self.spec_stamp(),
    {
        self.stamp
    }

    /// The application name.
    pub fn app(&self) -> (r: &str)
        ensures
            r@ == self.spec_app(),
    {
        self.app.as_str()
    }

    /// The network address.
    pub fn net_addr(&self) -> (r: NetAddr)
        ensures
            r == self.spec_net_addr(),
    {
        self.net_addr
    }

    /// The network transfer size, in bytes.
    pub fn net_xfer(&self) -> (r: usize)
        ensures
            r == self.spec_net_xfer(),
    {
        self.net_xfer
    }

    /// The logical path, if any. May be empty.
    pub fn path(&self) -> (r: &str)
        ensures
            r@ == self.spec_path(),
    {
        self.path.as_str()
    }
}

/// The characters of `s`.
pub fn chars_of(s: &str) -> (r: Vec<char>)
    ensures
        r@ == s@,
{
    let mut out: Vec<char> = Vec::new();
    for c in it: s.chars()
        invariant
            out@ == it.seq().take(it.index() as int),
    {
        out.push(c);
    }
    out
}

/// A string of the characters `s[from..to]`.
pub fn string_of_chars(s: &Vec<char>, from: usize, to: usize) -> (r: String)
    requires
        from <= to <= s@.len(),
    ensures
        r@ == s@.subrange(from as int, to as int),
{
    let mut r = String::new();
    let mut i = from;
    while i < to
        invariant
            from <= i <= to <= s@.len(),
            r@ == s@.subrange(from as int, i as int),
        decreases to - i,
    {
        push_char(&mut r, s[i]);
        assert(s@.subrange(from as int, i + 1) =~= s@.subrange(from as int, i as int).push(s@[i as int]));
        i = i + 1;
    }
    r
}

/// `char::is_whitespace`.
pub fn char_is_whitespace(c: char) -> (r: bool)
    ensures
        r == is_whitespace(c),
{
    let u = c as u32;
    (0x09 <= u && u <= 0x0d) || u == 0x20 || u == 0x85 || u == 0xa0 || u == 0x1680 || (0x2000 <= u
        && u <= 0x200a) || u == 0x2028 || u == 0x2029 || u == 0x202f || u == 0x205f || u == 0x3000
}

proof fn lemma_trim_start_skip(s: Seq<char>, i: int)
    requires
        0 <= i <= s.len(),
        forall|k: int| 0 <= k < i ==> is_whitespace(#[trigger] s[k]),
    ensures
        trim_start(s) == trim_start(s.subrange(i, s.len() as int)),
    decreases i,
{
    if i > 0 {
        assert(is_whitespace(s[0]));
        assert(s.drop_first() =~= s.subrange(1, s.len() as int));
        lemma_trim_start_skip(s.drop_first(), i - 1);
        assert(s.drop_first().subrange(i - 1, s.drop_first().len() as int) =~= s.subrange(i, s.len() as int));
    } else {
        assert(s.subrange(0, s.len() as int) =~= s);
    }
}

proof fn lemma_trim_end_cut(s: Seq<char>, j: int)
    requires
        0 <= j <= s.len(),
        forall|k: int| j <= k < s.len() ==> is_whitespace(#[trigger] s[k]),
    ensures
        trim_end(s) == trim_end(s.subrange(0, j)),
    decreases s.len() - j,
{
    if j < s.len() {
        assert(is_whitespace(s.last()));
        assert(s.drop_last() =~= s.subrange(0, s.len() - 1));
        lemma_trim_end_cut(s.drop_last(), j);
        assert(s.drop_last().subrange(0, j) =~= s.subrange(0, j));
    } else {
        assert(s.subrange(0, s.len() as int) =~= s);
    }
}

/// The bounds of the trimmed part of `s[from..to]`.
fn trim_bounds(s: &Vec<char>, from: usize, to: usize) -> (r: (usize, usize))
    requires
        from <= to <= s@.len(),
    ensures
        from <= r.0 <= r.1 <= to,
        s@.subrange(r.0 as int, r.1 as int) == trimmed(s@.subrange(from as int, to as int)),
{
    let ghost piece = s@.subrange(from as int, to as int);
    let mut a = from;
    while a < to && char_is_whitespace(s[a])
        invariant
            from <= a <= to <= s@.len(),
            piece == s@.subrange(from as int, to as int),
            forall|k: int| from <= k < a ==> is_whitespace(#[trigger] s@[k]),
        decreases to - a,
    {
        a = a + 1;
    }
    proof {
        assert forall|k: int| 0 <= k < a - from implies is_whitespace(#[trigger] piece[k]) by {
            assert(piece[k] == s@[from + k]);
        }
        lemma_trim_start_skip(piece, a - from);
        assert(piece.subrange(a - from, piece.len() as int) =~= s@.subrange(a as int, to as int));
        let rest = s@.subrange(a as int, to as int);
        if rest.len() > 0 {
            assert(!is_whitespace(rest[0]));
        }
        assert(trim_start(rest) == rest);
    }
    let mut b = to;
    while b > a && char_is_whitespace(s[b - 1])
        invariant
            from <= a <= b <= to <= s@.len(),
            forall|k: int| b <= k < to ==> is_whitespace(#[trigger] s@[k]),
        decreases b - a,
    {
        b = b - 1;
    }
    proof {
        let rest = s@.subrange(a as int, to as int);
        assert forall|k: int| b - a <= k < rest.len() implies is_whitespace(#[trigger] rest[k]) by {
            assert(rest[k] == s@[a + k]);
        }
        lemma_trim_end_cut(rest, b - a);
        assert(rest.subrange(0, b - a) =~= s@.subrange(a as int, b as int));
        let kept = s@.subrange(a as int, b as int);
        if kept.len() > 0 {
            assert(!is_whitespace(kept.last()));
        }
        assert(trim_end(kept) == kept);
    }
    (a, b)
}

/// The positions of the delimiter `d` in `s`: the pieces of `split_pieces`
/// run between them.
pub open spec fn piece_bounds(s: Seq<char>, d: char, starts: Seq<int>, ends: Seq<int>) -> bool {
    &&& starts.len() == split_pieces(s, d).len()
    &&& ends.len() == starts.len()
    &&& forall|k: int|
        0 <= k < starts.len() ==> 0 <= #[trigger] starts[k] <= ends[k] <= s.len() && s.subrange(
            starts[k],
            ends[k],
        ) == split_pieces(s, d)[k]
}

/// `split_pieces` of a sequence grows at its end, one character at a time.
proof fn lemma_split_pieces_step(s: Seq<char>, d: char, i: int)
    requires
        0 <= i < s.len(),
    ensures
        split_pieces(s.take(i + 1), d) == if s[i] == d {
            split_pieces(s.take(i), d).push(Seq::empty())
        } else {
            let rest = split_pieces(s.take(i), d);
            rest.update(rest.len() - 1, rest.last().push(s[i]))
        },
{
    assert(s.take(i + 1).drop_last() =~= s.take(i));
}

proof fn lemma_split_pieces_nonempty(s: Seq<char>, d: char)
    ensures
        split_pieces(s, d).len() >= 1,
    decreases s.len(),
{
    if s.len() > 0 {
        lemma_split_pieces_nonempty(s.drop_last(), d);
    }
}

/// The start and end of each `;`-separated piece of `s`.
fn split_bounds(s: &Vec<char>) -> (r: (Vec<usize>, Vec<usize>))
    ensures
        piece_bounds(s@, ';', r.0@.map_values(|x: usize| x as int), r.1@.map_values(|x: usize| x as int)),
{
    let mut starts: Vec<usize> = Vec::new();
    let mut ends: Vec<usize> = Vec::new();
    let mut start: usize = 0;
    let mut i: usize = 0;
    assert(s@.take(0) =~= Seq::<char>::empty());
    while i < s.len()
        invariant
            start <= i <= s@.len(),
            starts@.len() == ends@.len(),
            starts@.len() + 1 == split_pieces(s@.take(i as int), ';').len(),
            forall|k: int|
                0 <= k < starts@.len() ==> #[trigger] starts@[k] <= ends@[k] <= i && s@.subrange(
                    starts@[k] as int,
                    ends@[k] as int,
                ) == split_pieces(s@.take(i as int), ';')[k],
            s@.subrange(start as int, i as int) == split_pieces(s@.take(i as int), ';').last(),
        decreases s@.len() - i,
    {
        let ghost prev = split_pieces(s@.take(i as int), ';');
        let ghost old_starts = starts@;
        let ghost old_ends = ends@;
        let ghost old_start = start;
        proof {
            lemma_split_pieces_step(s@, ';', i as int);
            lemma_split_pieces_nonempty(s@.take(i as int), ';');
        }
        let is_delim = s[i] == ';';
        if is_delim {
            starts.push(start);
            ends.push(i);
            start = i + 1;
        }
        proof {
            if is_delim {
                assert(split_pieces(s@.take(i + 1), ';') == prev.push(Seq::<char>::empty()));
                assert(s@.subrange(start as int, i + 1) =~= Seq::<char>::empty());
            } else {
                assert(s@[i as int] != ';');
                assert(split_pieces(s@.take(i + 1), ';') == prev.update(prev.len() - 1, prev.last().push(s@[i as int])));
                assert(s@.subrange(start as int, i + 1) =~= s@.subrange(start as int, i as int).push(s@[i as int]));
            }
        }
        let ghost old_i = i;
        i = i + 1;
        proof {
            let next = split_pieces(s@.take(i as int), ';');
            assert(next == split_pieces(s@.take(old_i + 1), ';'));
            assert forall|k: int|
                0 <= k < starts@.len() implies #[trigger] starts@[k] <= ends@[k] <= i && s@.subrange(
                    starts@[k] as int,
                    ends@[k] as int,
                ) == next[k] by {
                if k < old_starts.len() {
                    assert(starts@[k] == old_starts[k] && ends@[k] == old_ends[k]);
                    assert(next[k] == prev[k]);
                } else {
                    assert(starts@[k] == old_start && ends@[k] == old_i);
                    assert(next[k] == prev[k]);
                }
            }
        }
    }
    starts.push(start);
    ends.push(i);
    proof {
        assert(s@.take(i as int) =~= s@);
        let ms = starts@.map_values(|x: usize| x as int);
        let me = ends@.map_values(|x: usize| x as int);
        assert forall|k: int| 0 <= k < ms.len() implies 0 <= #[trigger] ms[k] <= me[k] <= s@.len()
            && s@.subrange(ms[k], me[k]) == split_pieces(s@, ';')[k] by {
        }
    }
    (starts, ends)
}

/// `usize::from_str` on `s[from..to]`.
fn parse_usize_range(s: &Vec<char>, from: usize, to: usize) -> (r: Option<usize>)
    requires
        from <= to <= s@.len(),
    ensures
        r == parse_usize(s@.subrange(from as int, to as int)),
{
    let ghost text = s@.subrange(from as int, to as int);
    let mut i = from;
    if i < to && s[i] == '+' {
        i = i + 1;
    }
    let ghost digits = s@.subrange(i as int, to as int);
    proof {
        if text.len() > 0 && text[0] == '+' {
            assert(digits =~= text.drop_first());
        } else {
            assert(digits =~= text);
        }
    }
    if i == to {
        return None;
    }
    let start = i;
    let mut value: usize = 0;
    while i < to
        invariant
            from <= start <= i <= to <= s@.len(),
            text == s@.subrange(from as int, to as int),
            digits == (if text.len() > 0 && text[0] == '+' { text.drop_first() } else { text }),
            digits == s@.subrange(start as int, to as int),
            forall|k: int| start <= k < i ==> '0' <= #[trigger] s@[k] <= '9',
            value == digits_value(s@.subrange(start as int, i as int)),
        decreases to - i,
    {
        let c = s[i];
        proof {
            assert(s@.subrange(start as int, i + 1).drop_last() =~= s@.subrange(start as int, i as int));
        }
        if !('0' <= c && c <= '9') {
            proof {
                assert(!('0' <= digits[i - start] <= '9'));
            }
            return None;
        }
        let d = (c as u32 - 48) as usize;
        match value.checked_mul(10) {
            Some(v10) => {
                match v10.checked_add(d) {
                    Some(v) => {
                        value = v;
                    },
                    None => {
                        proof {
                            if all_digits(digits) {
                                lemma_digits_value_prefix(digits, i + 1 - start);
                                assert(digits.subrange(0, i + 1 - start) =~= s@.subrange(start as int, i + 1));
                            }
                        }
                        return None;
                    },
                }
            },
            None => {
                proof {
                    if all_digits(digits) {
                        lemma_digits_value_prefix(digits, i + 1 - start);
                        assert(digits.subrange(0, i + 1 - start) =~= s@.subrange(start as int, i + 1));
                    }
                }
                return None;
            },
        }
        i = i + 1;
    }
    proof {
        assert(s@.subrange(start as int, i as int) =~= digits);
    }
    Some(value)
}

/// The value of a digit sequence is at least that of each prefix.
proof fn lemma_digits_value_prefix(s: Seq<char>, n: int)
    requires
        0 <= n <= s.len(),
        forall|k: int| 0 <= k < s.len() ==> '0' <= #[trigger] s[k] <= '9',
    ensures
        digits_value(s.subrange(0, n)) <= digits_value(s),
    decreases s.len() - n,
{
    if n < s.len() {
        assert(s.drop_last().subrange(0, n) =~= s.subrange(0, n));
        lemma_digits_value_prefix(s.drop_last(), n);
    } else {
        assert(s.subrange(0, n) =~= s);
    }
}

/// The address field of a message, trimmed, where the message has one;
/// it is to be parsed as an IP address and handed to `parse_message`.
pub fn address_field(text: &str) -> (r: Option<String>)
    ensures
        split_pieces(text@, ';').len() >= 3 ==> (r matches Some(a) && a@ == trimmed(split_pieces(text@, ';')[2])),
        split_pieces(text@, ';').len() < 3 ==> r is None,
{
    let chars = chars_of(text);
    let (starts, ends) = split_bounds(&chars);
    if starts.len() < 3 {
        return None;
    }
    proof {
        assert(starts@.map_values(|x: usize| x as int)[2] == starts@[2] as int);
        assert(ends@.map_values(|x: usize| x as int)[2] == ends@[2] as int);
    }
    let (a, b) = trim_bounds(&chars, starts[2], ends[2]);
    Some(string_of_chars(&chars, a, b))
}

/// Parse a protocol message received at `stamp`. `addr` is the IP address
/// that the trimmed address field parses to (`None` where it is no valid
/// address); see `address_field`.
pub fn parse_message(text: &str, stamp: u64, addr: Option<NetAddr>) -> (r: Result<Message, MessageError>)
    ensures
        ({
            let p = split_pieces(text@, ';');
            if trimmed(p[0]) != protocol_version() {
                r matches Err(MessageError::UnsupportedVersion(v)) && v@ == p[0]
            } else if p.len() < 2 {
                r matches Err(MessageError::MissingApp)
            } else if p.len() < 3 {
                r matches Err(MessageError::MissingAddr)
            } else if addr is None {
                r matches Err(MessageError::InvalidAddr)
            } else if p.len() < 4 {
                r matches Err(MessageError::MissingXfer)
            } else if parse_usize(trimmed(p[3])) is None {
                r matches Err(MessageError::InvalidXfer)
            } else if p.len() < 5 {
                r matches Err(MessageError::MissingPath)
            } else {
                r matches Ok(m) && m.spec_stamp() == stamp && m.spec_app() == trimmed(p[1])
                    && m.spec_net_addr() == addr->0 && m.spec_net_xfer() == parse_usize(
                    trimmed(p[3]),
                )->0 && m.spec_path() == trimmed(p[4])
            }
        }),
{
    let chars = chars_of(text);
    let (starts, ends) = split_bounds(&chars);
    let ghost p = split_pieces(text@, ';');
    let ghost ms = starts@.map_values(|x: usize| x as int);
    let ghost me = ends@.map_values(|x: usize| x as int);
    proof {
        lemma_split_pieces_nonempty(text@, ';');
        assert forall|k: int| 0 <= k < starts@.len() implies #[trigger] starts@[k] <= ends@[k] <= chars@.len()
            && chars@.subrange(starts@[k] as int, ends@[k] as int) == p[k] by {
            assert(ms[k] == starts@[k] as int && me[k] == ends@[k] as int);
        }
        assert(starts@.len() == p.len());
    }
    let (va, vb) = trim_bounds(&chars, starts[0], ends[0]);
    let version = string_of_chars(&chars, va, vb);
    let expected = "idiod v1".to_owned();
    if !(version == expected) {
        return Err(MessageError::UnsupportedVersion(string_of_chars(&chars, starts[0], ends[0])));
    }
    if starts.len() < 2 {
        return Err(MessageError::MissingApp);
    }
    let (aa, ab) = trim_bounds(&chars, starts[1], ends[1]);
    let app = string_of_chars(&chars, aa, ab);
    if starts.len() < 3 {
        return Err(MessageError::MissingAddr);
    }
    let net_addr = match addr {
        Some(a) => a,
        None => {
            return Err(MessageError::InvalidAddr);
        },
    };
    if starts.len() < 4 {
        return Err(MessageError::MissingXfer);
    }
    let (xa, xb) = trim_bounds(&chars, starts[3], ends[3]);
    let net_xfer = match parse_usize_range(&chars, xa, xb) {
        Some(x) => x,
        None => {
            return Err(MessageError::InvalidXfer);
        },
    };
    if starts.len() < 5 {
        return Err(MessageError::MissingPath);
    }
    let (pa, pb) = trim_bounds(&chars, starts[4], ends[4]);
    let path = string_of_chars(&chars, pa, pb);
    Ok(Message::new(stamp, app, net_addr, net_xfer, path))
}

/// Appending text without the delimiter extends the last piece.
pub proof fn lemma_split_append_plain(x: Seq<char>, y: Seq<char>, d: char)
    requires
        !y.contains(d),
    ensures
        split_pieces(x + y, d) == ({
            let px = split_pieces(x, d);
            px.update(px.len() - 1, px.last() + y)
        }),
    decreases y.len(),
{
    lemma_split_pieces_nonempty(x, d);
    let px = split_pieces(x, d);
    if y.len() == 0 {
        assert(x + y =~= x);
        assert(px.last() + y =~= px.last());
        assert(px.update(px.len() - 1, px.last() + y) =~= px);
    } else {
        let y0 = y.drop_last();
        assert(!y0.contains(d)) by {
            if y0.contains(d) {
                let k = choose|k: int| 0 <= k < y0.len() && y0[k] == d;
                assert(y[k] == d);
            }
        }
        lemma_split_append_plain(x, y0, d);
        assert((x + y).drop_last() =~= x + y0);
        assert((x + y).last() == y.last());
        assert(y.last() != d) by {
            assert(y[y.len() - 1] == y.last());
        }
        let rest = split_pieces(x + y0, d);
        assert(rest == px.update(px.len() - 1, px.last() + y0));
        assert(rest.last() == px.last() + y0);
        assert(rest.last().push(y.last()) =~= px.last() + y);
        assert(rest.update(rest.len() - 1, rest.last().push(y.last())) =~= px.update(px.len() - 1, px.last() + y));
    }
}

/// Appending the delimiter starts a new, empty piece.
pub proof fn lemma_split_append_delim(x: Seq<char>, d: char)
    ensures
        split_pieces(x + seq![d], d) == split_pieces(x, d).push(Seq::empty()),
{
    assert((x + seq![d]).drop_last() =~= x);
}

/// `trimmed` ignores a leading space.
proof fn lemma_trim_leading_space(a: Seq<char>)
    ensures
        trimmed(seq![' '] + a) == trimmed(a),
{
    assert((seq![' '] + a).drop_first() =~= a);
}

/// The daemon reads back what the access log filter sends: the message for
/// a request splits into the version, the application `apache` and the
/// address, size and path fields, each as given up to surrounding whitespace,
/// where none of them holds the delimiter `;`.
pub proof fn lemma_filter_message_read_back(a: Seq<char>, sz: Seq<char>, p: Seq<char>)
    requires
        !a.contains(';'),
        !sz.contains(';'),
        !p.contains(';'),
    ensures
        ({
            let pieces = split_pieces(crate::logline::apache_message_text(a, sz, p), ';');
            &&& pieces.len() == 5
            &&& trimmed(pieces[0]) == protocol_version()
            &&& trimmed(pieces[1]) == "apache"@
            &&& trimmed(pieces[2]) == trimmed(a)
            &&& trimmed(pieces[3]) == trimmed(sz)
            &&& trimmed(pieces[4]) == trimmed(p)
        }),
{
    reveal_strlit("idiod v1; apache; ");
    reveal_strlit("; ");
    reveal_strlit("idiod v1");
    reveal_strlit("apache");
    let p0 = seq!['i', 'd', 'i', 'o', 'd', ' ', 'v', '1'];
    let p1 = seq![' ', 'a', 'p', 'a', 'c', 'h', 'e'];
    let sp = seq![' '];
    let dl = seq![';'];
    let msg = crate::logline::apache_message_text(a, sz, p);
    assert(msg =~= p0 + dl + p1 + dl + (sp + a) + dl + (sp + sz) + dl + (sp + p));
    assert(!p0.contains(';')) by {
        assert forall|k: int| 0 <= k < p0.len() implies p0[k] != ';' by {}
    }
    assert(!p1.contains(';')) by {
        assert forall|k: int| 0 <= k < p1.len() implies p1[k] != ';' by {}
    }
    assert forall|x: Seq<char>| !x.contains(';') implies !(#[trigger] (sp + x)).contains(';') by {
        if (sp + x).contains(';') {
            let k = choose|k: int| 0 <= k < (sp + x).len() && (sp + x)[k] == ';';
            assert(k > 0);
            assert(x[k - 1] == ';');
        }
    }
    let e = Seq::<char>::empty();
    lemma_split_append_plain(e, p0, ';');
    assert(e + p0 =~= p0);
    assert(split_pieces(e, ';') == seq![e]);
    let s0 = split_pieces(p0, ';');
    assert(s0 =~= seq![p0]);
    lemma_split_append_delim(p0, ';');
    let x1 = p0 + dl;
    lemma_split_append_plain(x1, p1, ';');
    let x2 = x1 + p1;
    assert(split_pieces(x2, ';') =~= seq![p0, p1]);
    lemma_split_append_delim(x2, ';');
    let x3 = x2 + dl;
    lemma_split_append_plain(x3, sp + a, ';');
    let x4 = x3 + (sp + a);
    assert(split_pieces(x4, ';') =~= seq![p0, p1, sp + a]);
    lemma_split_append_delim(x4, ';');
    let x5 = x4 + dl;
    lemma_split_append_plain(x5, sp + sz, ';');
    let x6 = x5 + (sp + sz);
    assert(split_pieces(x6, ';') =~= seq![p0, p1, sp + a, sp + sz]);
    lemma_split_append_delim(x6, ';');
    let x7 = x6 + dl;
    lemma_split_append_plain(x7, sp + p, ';');
    let x8 = x7 + (sp + p);
    assert(split_pieces(x8, ';') =~= seq![p0, p1, sp + a, sp + sz, sp + p]);
    assert(x8 =~= msg);
    lemma_trim_leading_space(a);
    lemma_trim_leading_space(sz);
    lemma_trim_leading_space(p);
    assert(trimmed(p0) =~= protocol_version());
    let ap = seq!['a', 'p', 'a', 'c', 'h', 'e'];
    assert(p1.drop_first() =~= ap);
    assert(is_whitespace(p1[0]));
    assert(trim_start(p1) == trim_start(ap));
    assert(!is_whitespace(ap[0]));
    assert(trim_start(ap) == ap);
    assert(!is_whitespace(ap.last()));
    assert(trim_end(ap) == ap);
    assert(trimmed(p1) =~= "apache"@);
}

proof fn lemma_decimal_digits(n: nat)
    ensures
        all_digits(decimal_text(n)),
        digits_value(decimal_text(n)) == n,
    decreases n,
{
    let t = decimal_text(n);
    if n < 10 {
        assert(t == seq![digit_char(n)]);
        assert(digit_char(n) as u32 == 48 + n);
        assert(t.drop_last() =~= Seq::<char>::empty());
        assert(digits_value(t) == digits_value(t.drop_last()) * 10 + ((t.last() as u32) - 48) as nat);
    } else {
        assert(n / 10 < n);
        lemma_decimal_digits(n / 10);
        let p = radix_text(n / 10, 10);
        assert(t == p.push(digit_char(n % 10)));
        assert(t.drop_last() =~= p);
        assert forall|i: int| 0 <= i < t.len() implies '0' <= #[trigger] t[i] <= '9' by {
            if i < p.len() {
                assert(t[i] == p[i]);
            }
        }
        assert(digit_char(n % 10) as u32 == 48 + n % 10);
        assert(t.last() == digit_char(n % 10));
        assert(digits_value(t) == digits_value(p) * 10 + ((t.last() as u32) - 48) as nat);
        assert(n == (n / 10) * 10 + n % 10);
    }
}

/// A size field reads back as the number it was written from: the decimal
/// text of a `usize`, with or without a leading `+`, parses to that number.
pub proof fn lemma_parse_usize_decimal(n: usize)
    ensures
        parse_usize(decimal_text(n as nat)) == Some(n),
        parse_usize(seq!['+'] + decimal_text(n as nat)) == Some(n),
{
    lemma_decimal_digits(n as nat);
    let t = decimal_text(n as nat);
    assert(t[0] != '+');
    assert((seq!['+'] + t).drop_first() =~= t);
}

} // verus!
