//! The access log filter's logic: finding the fields of an Apache access
//! log line and turning them into a protocol message for the daemon.

use vstd::prelude::*;
use vstd::string::StringSliceAdditionalSpecFns;
use vstd::utf8::{
    decode_utf8, encode_scalar, encode_utf8, is_char_boundary, valid_utf8,
};

verus! {

broadcast use vstd::utf8::group_utf8_lib;

/// `c` starts at byte `p` of the UTF-8 text `b`.
pub open spec fn char_at(b: Seq<u8>, p: int, c: char) -> bool {
    let enc = encode_scalar(c as u32);
    &&& is_char_boundary(b, p)
    &&& 0 <= p
    &&& p + enc.len() <= b.len()
    &&& b.subrange(p, p + enc.len()) == enc
}

/// The first byte position from `p` on where `c` starts.
pub open spec fn first_char_at(b: Seq<u8>, c: char, p: int) -> Option<int>
    decreases b.len() - p,
{
    if p < 0 || p >= b.len() {
        None
    } else if char_at(b, p, c) {
        Some(p)
    } else {
        first_char_at(b, c, p + 1)
    }
}

/// A found position lies at or after the start and inside the text, and `c` starts there.
pub proof fn lemma_first_char_at(b: Seq<u8>, c: char, q: int)
    ensures
        first_char_at(b, c, q) matches Some(p) ==> q <= p < b.len() && char_at(b, p, c),
    decreases b.len() - q,
{
    if 0 <= q < b.len() && !char_at(b, q, c) {
        lemma_first_char_at(b, c, q + 1);
    }
}

/// `s.get(offs..)` and `find(c)` on that, as a byte position in `s`: none
/// where `offs` is past the end or inside a character.
pub open spec fn find_char(b: Seq<u8>, c: char, offs: int) -> Option<int> {
    if 0 <= offs <= b.len() && is_char_boundary(b, offs) {
        first_char_at(b, c, offs)
    } else {
        None
    }
}

/// `s.get(from..to)`, on bytes: none where the range is reversed, runs past
/// the end or cuts a character.
pub open spec fn get_range(b: Seq<u8>, from: int, to: int) -> Option<Seq<u8>> {
    if 0 <= from <= to <= b.len() && is_char_boundary(b, from) && is_char_boundary(b, to) {
        Some(b.subrange(from, to))
    } else {
        None
    }
}

/// The UTF-8 encoding of `c`.
fn encode_char(c: char) -> (r: Vec<u8>)
    ensures
        r@ == encode_scalar(c as u32),
        1 <= r@.len() <= 4,
{
    let v = c as u32;
    proof {
        vstd::utf8::char_is_scalar(c);
    }
    if v <= 0x7F {
        vec![(v & 0x7F) as u8]
    } else if v <= 0x7FF {
        vec![0xC0u8 | ((v >> 6u32) & 0x1Fu32) as u8, 0x80u8 | (v & 0x3Fu32) as u8]
    } else if v <= 0xFFFF {
        vec![
            0xE0u8 | ((v >> 12u32) & 0x0Fu32) as u8,
            0x80u8 | ((v >> 6u32) & 0x3Fu32) as u8,
            0x80u8 | (v & 0x3Fu32) as u8,
        ]
    } else {
        vec![
            0xF0u8 | ((v >> 18u32) & 0x7u32) as u8,
            0x80u8 | ((v >> 12u32) & 0x3Fu32) as u8,
            0x80u8 | ((v >> 6u32) & 0x3Fu32) as u8,
            0x80u8 | (v & 0x3Fu32) as u8,
        ]
    }
}

/// `b[p..p + e.len()] == e`.
fn bytes_match_at(b: &[u8], p: usize, e: &Vec<u8>) -> (r: bool)
    requires
        p + e@.len() <= b@.len(),
    ensures
        r == (b@.subrange(p as int, p + e@.len()) == e@),
{
    let mut k: usize = 0;
    while k < e.len()
        invariant
            k <= e@.len(),
            p + e@.len() <= b@.len(),
            b@.len() == b.len(),
            forall|j: int| 0 <= j < k ==> b@[p + j] == e@[j],
        decreases e@.len() - k,
    {
        if b[p + k] != e[k] {
            assert(b@.subrange(p as int, p + e@.len())[k as int] != e@[k as int]);
            return false;
        }
        k = k + 1;
    }
    assert(b@.subrange(p as int, p + e@.len()) =~= e@);
    true
}

/// Find the character `c` in `s` from byte offset `offs` on; returns its byte
/// position in `s`.
pub fn str_find(s: &str, c: char, offs: usize) -> (r: Option<usize>)
    ensures
        r matches Some(p) ==> find_char(s.spec_bytes(), c, offs as int) == Some(p as int) && offs <= p
            < s.spec_bytes().len(),
        r is None ==> find_char(s.spec_bytes(), c, offs as int) is None,
{
    let b = s.as_bytes();
    proof {
        lemma_first_char_at(b@, c, offs as int);
    }
    if offs > b.len() || !s.is_char_boundary(offs) {
        return None;
    }
    let enc = encode_char(c);
    let mut p = offs;
    while p < b.len()
        invariant
            offs <= p <= b@.len(),
            b@ == s.spec_bytes(),
            is_char_boundary(b@, offs as int),
            enc@ == encode_scalar(c as u32),
            first_char_at(b@, c, offs as int) == first_char_at(b@, c, p as int),
        decreases b@.len() - p,
    {
        if s.is_char_boundary(p) && enc.len() <= b.len() - p && bytes_match_at(b, p, &enc) {
            assert(is_char_boundary(b@, p as int));
            assert(b@.subrange(p as int, p + enc@.len()) == encode_scalar(c as u32));
            assert(char_at(b@, p as int, c));
            assert(first_char_at(b@, c, p as int) == Some(p as int));
            return Some(p);
        }
        p = p + 1;
    }
    None
}

/// The text that the bytes `b` encode.
pub open spec fn text_of(b: Seq<u8>) -> Seq<char> {
    decode_utf8(b)
}

/// `s.get(from..to)`.
pub fn str_get(s: &str, from: usize, to: usize) -> (r: Option<&str>)
    ensures
        match get_range(s.spec_bytes(), from as int, to as int) {
            Some(b) => r matches Some(x) && x.spec_bytes() == b && x@ == text_of(b),
            None => r is None,
        },
{
    let ghost bytes = s.spec_bytes();
    proof {
        vstd::utf8::encode_utf8_valid_utf8(s@);
    }
    let len = s.as_bytes().len();
    if from <= to && to <= len && s.is_char_boundary(from) && s.is_char_boundary(to) {
        let (_, tail) = s.split_at(from);
        proof {
            let tb = bytes.subrange(from as int, bytes.len() as int);
            assert(tail.spec_bytes() == tb);
            vstd::utf8::valid_utf8_split(bytes, from as int);
            if to == bytes.len() {
                assert(tb.len() == to - from);
                vstd::utf8::is_char_boundary_start_end_of_seq(tb);
            } else {
                vstd::utf8::is_char_boundary_iff_not_is_continuation_byte(bytes, to as int);
                vstd::utf8::is_char_boundary_iff_not_is_continuation_byte(tb, to - from);
                assert(tb[to - from] == bytes[to as int]);
            }
        }
        let (mid, _) = tail.split_at(to - from);
        proof {
            assert(mid.spec_bytes() =~= bytes.subrange(from as int, to as int));
            vstd::utf8::encode_utf8_decode_utf8(mid@);
            assert(mid@ == text_of(mid.spec_bytes()));
            assert(get_range(bytes, from as int, to as int) == Some(bytes.subrange(from as int, to as int)));
        }
        Some(mid)
    } else {
        None
    }
}

/// The address, size and path fields of an Apache access log line
/// (`<addr> ... "<method> <path> <proto>" <status> <size> ...`), as the filter
/// finds them; none where a field is missing.
/// The request field loses its last character before the path is taken.
pub open spec fn log_line_fields(b: Seq<u8>) -> Option<(Seq<u8>, Seq<u8>, Seq<u8>)> {
    match find_char(b, ' ', 0) {
        None => None,
        Some(addr_end) => match find_char(b, '"', addr_end + 1) {
            None => None,
            Some(get_begin) => match find_char(b, '"', get_begin + 1) {
                None => None,
                Some(get_end) => match find_char(b, ' ', get_end + 2) {
                    None => None,
                    Some(status_end) => match find_char(b, ' ', status_end + 1) {
                        None => None,
                        Some(size_end) => match get_range(b, 0, addr_end) {
                            None => None,
                            Some(addr) => match get_range(b, get_begin + 1, get_end - 1) {
                                None => None,
                                Some(get) => match get_range(b, status_end + 1, size_end) {
                                    None => None,
                                    Some(size) => {
                                        let path = match find_char(get, ' ', 0) {
                                            Some(path_begin) => match get_range(
                                                get,
                                                path_begin + 1,
                                                get.len() as int,
                                            ) {
                                                Some(p) => p,
                                                None => Seq::empty(),
                                            },
                                            None => Seq::empty(),
                                        };
                                        Some((addr, size, path))
                                    },
                                },
                            },
                        },
                    },
                },
            },
        },
    }
}

/// `i` is the first position from `from` on where the byte `x` stands.
pub open spec fn first_byte(b: Seq<u8>, x: u8, from: int, i: int) -> bool {
    &&& 0 <= from <= i < b.len()
    &&& b[i] == x
    &&& forall|j: int| from <= j < i ==> b[j] != x
}

/// After a one-byte character at a boundary comes another boundary.
proof fn lemma_ascii_boundary_next(b: Seq<u8>, i: int)
    requires
        valid_utf8(b),
        0 <= i < b.len(),
        is_char_boundary(b, i),
        b[i] < 0x80,
    ensures
        is_char_boundary(b, i + 1),
{
    vstd::utf8::valid_utf8_split(b, i);
    let s = b.subrange(i, b.len() as int);
    assert(s[0] == b[i]);
    assert(is_char_boundary(s, 1)) by {
        reveal_with_fuel(is_char_boundary, 2);
        assert(vstd::utf8::length_of_first_scalar(s) == 1);
    }
    if i + 1 < b.len() {
        vstd::utf8::is_char_boundary_iff_not_is_continuation_byte(s, 1);
        vstd::utf8::is_char_boundary_iff_not_is_continuation_byte(b, i + 1);
        assert(s[1] == b[i + 1]);
    } else {
        vstd::utf8::is_char_boundary_start_end_of_seq(b);
    }
}

/// The bytes between two boundaries are valid UTF-8 themselves.
proof fn lemma_valid_between(b: Seq<u8>, i: int, k: int)
    requires
        valid_utf8(b),
        0 <= i <= k <= b.len(),
        is_char_boundary(b, i),
        is_char_boundary(b, k),
    ensures
        valid_utf8(b.subrange(i, k)),
{
    vstd::utf8::valid_utf8_split(b, i);
    let s = b.subrange(i, b.len() as int);
    if k == b.len() {
        vstd::utf8::is_char_boundary_start_end_of_seq(s);
        assert(s.len() == k - i);
    } else {
        vstd::utf8::is_char_boundary_iff_not_is_continuation_byte(s, k - i);
        vstd::utf8::is_char_boundary_iff_not_is_continuation_byte(b, k);
        assert(s[k - i] == b[k]);
    }
    vstd::utf8::valid_utf8_split(s, k - i);
    assert(s.subrange(0, k - i) =~= b.subrange(i, k));
}

/// A one-byte character starts exactly where its byte stands.
proof fn lemma_ascii_char_at(b: Seq<u8>, p: int, c: char, x: u8)
    requires
        valid_utf8(b),
        0 <= p < b.len(),
        c as u32 == x as u32,
        x < 0x80,
    ensures
        char_at(b, p, c) <==> b[p] == x,
{
    let v = c as u32;
    assert((v & 0x7F) as u8 == x) by (bit_vector)
        requires
            v == x as u32,
            x < 0x80u8,
    ;
    assert(encode_scalar(v) =~= seq![x]);
    vstd::utf8::is_char_boundary_iff_not_is_continuation_byte(b, p);
    if b[p] == x {
        assert(b.subrange(p, p + 1) =~= seq![x]);
    }
    if char_at(b, p, c) {
        assert(b.subrange(p, p + 1)[0] == b[p]);
    }
}

/// Searching for a one-byte character finds the first position of its byte.
proof fn lemma_first_ascii(b: Seq<u8>, c: char, x: u8, p: int)
    requires
        valid_utf8(b),
        c as u32 == x as u32,
        x < 0x80,
        0 <= p,
    ensures
        first_char_at(b, c, p) matches Some(i) ==> first_byte(b, x, p, i),
        first_char_at(b, c, p) is None ==> forall|j: int| p <= j < b.len() ==> b[j] != x,
    decreases b.len() - p,
{
    if p < b.len() {
        lemma_ascii_char_at(b, p, c, x);
        if !char_at(b, p, c) {
            lemma_first_ascii(b, c, x, p + 1);
        }
    }
}

/// The first position of a byte is unique.
proof fn lemma_first_byte_unique(b: Seq<u8>, x: u8, from: int, i: int, k: int)
    requires
        first_byte(b, x, from, i),
        first_byte(b, x, from, k),
    ensures
        i == k,
{
}

/// From a boundary on, the search for a one-byte character finds the first
/// position of its byte; that position and the one after it are boundaries.
proof fn lemma_find_ascii(b: Seq<u8>, c: char, x: u8, offs: int, i: int)
    requires
        valid_utf8(b),
        c as u32 == x as u32,
        x < 0x80,
        0 <= offs <= b.len(),
        is_char_boundary(b, offs),
        first_byte(b, x, offs, i),
    ensures
        find_char(b, c, offs) == Some(i),
        is_char_boundary(b, i),
        is_char_boundary(b, i + 1),
{
    lemma_first_ascii(b, c, x, offs);
    if let Some(k) = first_char_at(b, c, offs) {
        lemma_first_byte_unique(b, x, offs, i, k);
    }
    vstd::utf8::is_char_boundary_iff_not_is_continuation_byte(b, i);
    lemma_ascii_boundary_next(b, i);
}

/// The fields that the filter takes from a log line, in terms of its bytes:
/// the address is everything before the first space; the request field lies
/// between the first double quote after that space and the next double quote,
/// less its last byte; the size lies between the first space from the second
/// byte after the closing quote on and the next space; the path is all of the
/// request field after its first space, whatever it holds, and empty where
/// the request field holds no space. (The line has these fields wherever the
/// request field is not empty and its ends and the start of the status field
/// do not cut a character.)
pub proof fn lemma_log_line_fields_bytes(b: Seq<u8>, e: int, g0: int, g1: int, s1: int, s2: int)
    requires
        valid_utf8(b),
        first_byte(b, 32u8, 0, e),
        first_byte(b, 34u8, e + 1, g0),
        first_byte(b, 34u8, g0 + 1, g1),
        first_byte(b, 32u8, g1 + 2, s1),
        first_byte(b, 32u8, s1 + 1, s2),
        g0 + 1 <= g1 - 1,
        is_char_boundary(b, g1 - 1),
        is_char_boundary(b, g1 + 2),
    ensures
        log_line_fields(b) matches Some((addr, size, path)) && {
            let get = b.subrange(g0 + 1, g1 - 1);
            &&& g0 + 1 <= g1 - 1
            &&& addr == b.subrange(0, e)
            &&& size == b.subrange(s1 + 1, s2)
            &&& forall|k: int| #[trigger] first_byte(get, 32u8, 0, k) ==> path == get.subrange(k + 1, get.len() as int)
            &&& (forall|j: int| 0 <= j < get.len() ==> get[j] != 32u8) ==> path.len() == 0
        },
{
    assert(' ' as u32 == 32u32);
    assert('"' as u32 == 34u32);
    vstd::utf8::is_char_boundary_start_end_of_seq(b);
    lemma_find_ascii(b, ' ', 32u8, 0, e);
    lemma_find_ascii(b, '"', 34u8, e + 1, g0);
    lemma_find_ascii(b, '"', 34u8, g0 + 1, g1);
    lemma_find_ascii(b, ' ', 32u8, g1 + 2, s1);
    lemma_find_ascii(b, ' ', 32u8, s1 + 1, s2);
    let get = b.subrange(g0 + 1, g1 - 1);
    assert(get_range(b, g0 + 1, g1 - 1) == Some(get));
    lemma_valid_between(b, g0 + 1, g1 - 1);
    vstd::utf8::is_char_boundary_start_end_of_seq(get);
    let fields = log_line_fields(b)->0;
    let path = fields.2;
    match find_char(get, ' ', 0) {
        Some(k0) => {
            lemma_first_ascii(get, ' ', 32u8, 0);
            lemma_find_ascii(get, ' ', 32u8, 0, k0);
            assert(get[k0] == 32u8);
            assert(get_range(get, k0 + 1, get.len() as int) == Some(get.subrange(k0 + 1, get.len() as int)));
            assert(path == get.subrange(k0 + 1, get.len() as int));
            assert forall|k: int| #[trigger] first_byte(get, 32u8, 0, k) implies path == get.subrange(k + 1, get.len() as int) by {
                lemma_first_byte_unique(get, 32u8, 0, k, k0);
            }
        },
        None => {
            lemma_first_ascii(get, ' ', 32u8, 0);
            assert(path.len() == 0);
        },
    }
}

/// The protocol message for a request of `addr` with `size` bytes on `path`.
pub open spec fn apache_message_text(addr: Seq<char>, size: Seq<char>, path: Seq<char>) -> Seq<char> {
    "idiod v1; apache; "@ + addr + "; "@ + size + "; "@ + path
}

/// The protocol message that the filter sends for an access log line,
/// or `None` where the line lacks a field.
pub fn log_line_message(line: &str) -> (r: Option<String>)
    requires
        line.spec_bytes().len() <= isize::MAX,
    ensures
        match log_line_fields(line.spec_bytes()) {
            Some((addr, size, path)) => r matches Some(m) && m@ == apache_message_text(
                text_of(addr),
                text_of(size),
                text_of(path),
            ),
            None => r is None,
        },
{
    let ghost b = line.spec_bytes();
    let addr_end = match str_find(line, ' ', 0) {
        Some(p) => p,
        None => return None,
    };
    let get_begin = match str_find(line, '"', addr_end + 1) {
        Some(p) => p,
        None => return None,
    };
    let get_end = match str_find(line, '"', get_begin + 1) {
        Some(p) => p,
        None => return None,
    };
    let status_end = match str_find(line, ' ', get_end + 2) {
        Some(p) => p,
        None => return None,
    };
    let size_end = match str_find(line, ' ', status_end + 1) {
        Some(p) => p,
        None => return None,
    };
    let addr = match str_get(line, 0, addr_end) {
        Some(x) => x,
        None => return None,
    };
    let get = match str_get(line, get_begin + 1, get_end - 1) {
        Some(x) => x,
        None => return None,
    };
    let size = match str_get(line, status_end + 1, size_end) {
        Some(x) => x,
        None => return None,
    };
    let get_len = get.as_bytes().len();
    let path = match str_find(get, ' ', 0) {
        Some(path_begin) => match str_get(get, path_begin + 1, get_len) {
            Some(x) => x,
            None => "",
        },
        None => "",
    };
    proof {
        reveal_strlit("");
        vstd::utf8::encode_utf8_decode_utf8(Seq::<char>::empty());
        assert(text_of(Seq::<u8>::empty()) == Seq::<char>::empty()) by {
            assert(encode_utf8(Seq::<char>::empty()) =~= Seq::<u8>::empty());
        }
    }
    let mut msg = "idiod v1; apache; ".to_owned();
    msg.append(addr);
    msg.append("; ");
    msg.append(size);
    msg.append("; ");
    msg.append(path);
    Some(msg)
}

} // verus!