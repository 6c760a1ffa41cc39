//! The header record: a filename and a checksum, written as a compact JSON
//! object `{"filename":"...","checksum":"..."}` with escaped string bodies.

use vstd::prelude::*;
use vstd::utf8::*;
use crate::framing::{DELIMITER, has_no_delimiter};

verus! {

broadcast use vstd::std_specs::vec::group_vec_axioms;

pub const QUOTE: u8 = 0x22;
pub const BACKSLASH: u8 = 0x5c;

/// Lowercase hexadecimal digit for `n < 16`.
pub open spec fn hex_digit(n: u8) -> u8 {
    if n < 10 { (0x30 + n) as u8 } else { (0x61 + n - 10) as u8 }
}

/// How one byte of a string body is written.
pub open spec fn escape_byte(b: u8) -> Seq<u8> {
    if b == QUOTE {
        seq![BACKSLASH, QUOTE]
    } else if b == BACKSLASH {
        seq![BACKSLASH, BACKSLASH]
    } else if b < 0x20 {
        seq![BACKSLASH, 0x75u8, 0x30u8, 0x30u8, hex_digit(b / 16), hex_digit(b % 16)]
    } else {
        seq![b]
    }
}

/// A string body with every byte escaped.
pub open spec fn escape(s: Seq<u8>) -> Seq<u8>
    decreases s.len(),
{
    if s.len() == 0 {
        Seq::empty()
    } else {
        escape(s.drop_last()) + escape_byte(s.last())
    }
}

/// `{"filename":"`
#[verifier::opaque]
pub open spec fn open_tag() -> Seq<u8> {
    seq![0x7bu8, 0x22, 0x66, 0x69, 0x6c, 0x65, 0x6e, 0x61, 0x6d, 0x65, 0x22, 0x3a, 0x22]
}

/// `,"checksum":"`
#[verifier::opaque]
pub open spec fn middle_tag() -> Seq<u8> {
    seq![0x2cu8, 0x22, 0x63, 0x68, 0x65, 0x63, 0x6b, 0x73, 0x75, 0x6d, 0x22, 0x3a, 0x22]
}

/// `}`
#[verifier::opaque]
pub open spec fn close_tag() -> Seq<u8> {
    seq![0x7du8]
}

/// The record for the raw bytes of a filename and of a checksum.
pub open spec fn encode_fields(f: Seq<u8>, c: Seq<u8>) -> Seq<u8> {
    open_tag() + escape(f) + seq![QUOTE] + middle_tag() + escape(c) + seq![QUOTE] + close_tag()
}

/// The record for a filename and a checksum given as text.
pub open spec fn header_bytes(filename: Seq<char>, checksum: Seq<char>) -> Seq<u8> {
    encode_fields(encode_utf8(filename), encode_utf8(checksum))
}

pub open spec fn is_lower_hex(b: u8) -> bool {
    (0x30 <= b <= 0x39) || (0x61 <= b <= 0x66)
}

pub open spec fn hex_value(b: u8) -> u8 {
    if b <= 0x39 { (b - 0x30) as u8 } else { (b - 0x61 + 10) as u8 }
}

/// The letters of JSON's one-letter escapes: `b t n f r /`.
pub open spec fn is_short_escape(b: u8) -> bool {
    b == 0x62 || b == 0x74 || b == 0x6e || b == 0x66 || b == 0x72 || b == 0x2f
}

/// The byte a one-letter escape stands for.
pub open spec fn short_escape_value(b: u8) -> u8 {
    if b == 0x62 {
        0x08
    } else if b == 0x74 {
        0x09
    } else if b == 0x6e {
        0x0a
    } else if b == 0x66 {
        0x0c
    } else if b == 0x72 {
        0x0d
    } else {
        0x2f
    }
}

/// Prepends `pre` to a decoded string body, counting `k` more bytes read.
pub open spec fn prepend(pre: Seq<u8>, r: Option<(Seq<u8>, int)>, k: int) -> Option<(Seq<u8>, int)> {
    match r {
        Some((s, n)) => Some((pre + s, n + k)),
        None => None,
    }
}

/// Reads one escaped string body up to and including its closing quote:
/// the bytes it stands for and how many bytes it took; `None` when `t` is
/// not such a body.
pub open spec fn unescape(t: Seq<u8>) -> Option<(Seq<u8>, int)>
    decreases t.len(),
{
    if t.len() == 0 {
        None
    } else if t[0] == QUOTE {
        Some((Seq::empty(), 1))
    } else if t[0] == BACKSLASH {
        if t.len() >= 2 && (t[1] == QUOTE || t[1] == BACKSLASH) {
            prepend(seq![t[1]], unescape(t.subrange(2, t.len() as int)), 2)
        } else if t.len() >= 2 && is_short_escape(t[1]) {
            prepend(seq![short_escape_value(t[1])], unescape(t.subrange(2, t.len() as int)), 2)
        } else if t.len() >= 6 && t[1] == 0x75 && t[2] == 0x30 && t[3] == 0x30 && (t[4] == 0x30
            || t[4] == 0x31) && is_lower_hex(t[5]) {
            prepend(
                seq![((t[4] - 0x30) * 16 + hex_value(t[5])) as u8],
                unescape(t.subrange(6, t.len() as int)),
                6,
            )
        } else {
            None
        }
    } else if t[0] < 0x20 {
        None
    } else {
        prepend(seq![t[0]], unescape(t.subrange(1, t.len() as int)), 1)
    }
}

/// Why a header segment was refused.
#[derive(Debug, Clone, Copy, PartialEq, Eq)]
pub enum ParseError {
    /// Not a record with exactly the two fields, in the canonical form.
    Malformed,
    /// A field's bytes are not UTF-8.
    InvalidText,
}

/// The raw field bytes of a record, when `b` is one.
pub open spec fn parse_fields(b: Seq<u8>) -> Option<(Seq<u8>, Seq<u8>)> {
    let o = open_tag().len() as int;
    if b.len() >= o && b.subrange(0, o) == open_tag() {
        match unescape(b.subrange(o, b.len() as int)) {
            Some((f, n)) => {
                let k = o + n;
                let m = k + middle_tag().len();
                if b.len() >= m && b.subrange(k, m) == middle_tag() {
                    match unescape(b.subrange(m, b.len() as int)) {
                        Some((c, n2)) => {
                            if b.subrange(m + n2, b.len() as int) == close_tag() {
                                Some((f, c))
                            } else {
                                None
                            }
                        },
                        None => None,
                    }
                } else {
                    None
                }
            },
            None => None,
        }
    } else {
        None
    }
}

/// What a header segment decodes to: the filename and the checksum as text.
pub open spec fn decoded(b: Seq<u8>) -> Result<(Seq<char>, Seq<char>), ParseError> {
    match parse_fields(b) {
        None => Err(ParseError::Malformed),
        Some((f, c)) => {
            if valid_utf8(f) && valid_utf8(c) {
                Ok((decode_utf8(f), decode_utf8(c)))
            } else {
                Err(ParseError::InvalidText)
            }
        },
    }
}

proof fn lemma_escape_first(s: Seq<u8>)
    requires
        s.len() > 0,
    ensures
        escape(s) == escape_byte(s[0]) + escape(s.drop_first()),
    decreases s.len(),
{
    if s.len() == 1 {
        assert(s.drop_last() =~= Seq::<u8>::empty());
        assert(s.drop_first() =~= Seq::<u8>::empty());
        assert(escape(s.drop_last()) =~= Seq::<u8>::empty());
        assert(escape(s.drop_first()) =~= Seq::<u8>::empty());
        assert(escape(s) =~= escape_byte(s[0]));
    } else {
        lemma_escape_first(s.drop_last());
        assert(s.drop_last().drop_first() =~= s.drop_first().drop_last());
        assert(s.drop_first().last() == s.last());
        assert(escape(s.drop_first()) == escape(s.drop_first().drop_last()) + escape_byte(s.last()));
        assert(escape(s) =~= escape_byte(s[0]) + escape(s.drop_first()));
    }
}

proof fn lemma_unescape_escape(s: Seq<u8>, rest: Seq<u8>)
    ensures
        unescape(escape(s) + seq![QUOTE] + rest) == Some((s, escape(s).len() + 1int)),
    decreases s.len(),
{
    let t = escape(s) + seq![QUOTE] + rest;
    if s.len() == 0 {
        assert(t[0] == QUOTE);
        assert(s =~= Seq::<u8>::empty());
    } else {
        lemma_escape_first(s);
        let tail = s.drop_first();
        lemma_unescape_escape(tail, rest);
        let e = escape_byte(s[0]);
        let inner = escape(tail) + seq![QUOTE] + rest;
        assert(t =~= e + inner);
        assert(t.subrange(e.len() as int, t.len() as int) =~= inner);
        assert(seq![s[0]] + tail =~= s);
        let b = s[0];
        if b == QUOTE || b == BACKSLASH {
            assert(t[1] == b);
        } else if b < 0x20 {
            assert(t[4] == hex_digit(b / 16));
            assert(t[5] == hex_digit(b % 16));
            assert(((t[4] - 0x30) * 16 + hex_value(t[5])) as u8 == b);
        } else {
            assert(t[0] == b);
        }
    }
}

proof fn lemma_escape_no_delimiter(s: Seq<u8>)
    ensures
        has_no_delimiter(escape(s)),
    decreases s.len(),
{
    if s.len() > 0 {
        lemma_escape_no_delimiter(s.drop_last());
        let e = escape(s.drop_last());
        let x = escape_byte(s.last());
        assert forall|j: int| 0 <= j < escape(s).len() implies escape(s)[j] != DELIMITER by {
            if j >= e.len() {
                assert(escape(s)[j] == x[j - e.len()]);
            } else {
                assert(escape(s)[j] == e[j]);
            }
        }
    }
}

/// An encoded record never holds the delimiter byte, so it can stand
/// before the delimiter on the wire.
pub proof fn lemma_record_has_no_delimiter(f: Seq<u8>, c: Seq<u8>)
    ensures
        has_no_delimiter(encode_fields(f, c)),
{
    lemma_escape_no_delimiter(f);
    lemma_escape_no_delimiter(c);
    reveal(open_tag);
    reveal(middle_tag);
    reveal(close_tag);
    let b = encode_fields(f, c);
    let o = open_tag();
    let ef = escape(f);
    let m = middle_tag();
    let ec = escape(c);
    assert forall|j: int| 0 <= j < b.len() implies b[j] != DELIMITER by {
        let a1 = o.len() as int;
        let a2 = a1 + ef.len();
        let a3 = a2 + 1;
        let a4 = a3 + m.len();
        let a5 = a4 + ec.len();
        if j < a1 {
            assert(b[j] == o[j]);
        } else if j < a2 {
            assert(b[j] == ef[j - a1]);
        } else if j < a3 {
            assert(b[j] == QUOTE);
        } else if j < a4 {
            assert(b[j] == m[j - a3]);
        } else if j < a5 {
            assert(b[j] == ec[j - a4]);
        } else if j < a5 + 1 {
            assert(b[j] == QUOTE);
        } else {
            assert(b[j] == 0x7du8);
        }
    }
}

proof fn lemma_tag_lengths()
    ensures
        open_tag().len() == 13,
        middle_tag().len() == 13,
        close_tag().len() == 1,
{
    reveal(open_tag);
    reveal(middle_tag);
    reveal(close_tag);
}

proof fn lemma_parse_encode_fields(f: Seq<u8>, c: Seq<u8>)
    ensures
        parse_fields(encode_fields(f, c)) == Some((f, c)),
{
    lemma_tag_lengths();
    let b = encode_fields(f, c);
    let o = open_tag().len() as int;
    let rest1 = escape(c) + seq![QUOTE] + close_tag();
    let tail1 = middle_tag() + rest1;
    assert(b =~= open_tag() + (escape(f) + seq![QUOTE] + tail1));
    assert(b.subrange(0, o) =~= open_tag());
    assert(b.subrange(o, b.len() as int) =~= escape(f) + seq![QUOTE] + tail1);
    lemma_unescape_escape(f, tail1);
    let k = o + escape(f).len() + 1;
    let m = k + middle_tag().len();
    assert(b.subrange(k, m) =~= middle_tag());
    assert(b.subrange(m, b.len() as int) =~= escape(c) + seq![QUOTE] + close_tag());
    lemma_unescape_escape(c, close_tag());
    assert(b.subrange(m + escape(c).len() + 1, b.len() as int) =~= close_tag());
}

/// Decoding the record encoded from a filename and a checksum gives back
/// exactly that filename and that checksum.
pub proof fn lemma_header_round_trip(filename: Seq<char>, checksum: Seq<char>)
    ensures
        decoded(header_bytes(filename, checksum)) == Ok::<(Seq<char>, Seq<char>), ParseError>((filename, checksum)),
{
    lemma_parse_encode_fields(encode_utf8(filename), encode_utf8(checksum));
    encode_utf8_valid_utf8(filename);
    encode_utf8_valid_utf8(checksum);
    encode_utf8_decode_utf8(filename);
    encode_utf8_decode_utf8(checksum);
}

proof fn lemma_prepend_push(out: Seq<u8>, y: u8, r: Option<(Seq<u8>, int)>, k: int, d: int)
    ensures
        prepend(out, prepend(seq![y], r, d), k) == prepend(out.push(y), r, k + d),
{
    if let Some((s, n)) = r {
        assert(out + (seq![y] + s) =~= out.push(y) + s);
    }
}

fn short_escape_value_of(b: u8) -> (r: u8)
    requires
        is_short_escape(b),
    ensures
        r == short_escape_value(b),
{
    if b == 0x62 {
        0x08
    } else if b == 0x74 {
        0x09
    } else if b == 0x6e {
        0x0a
    } else if b == 0x66 {
        0x0c
    } else if b == 0x72 {
        0x0d
    } else {
        0x2f
    }
}

fn hex_value_of(b: u8) -> (r: u8)
    requires
        is_lower_hex(b),
    ensures
        r == hex_value(b),
{
    if b <= 0x39 { b - 0x30 } else { b - 0x61 + 10 }
}

/// Reads the escaped string body that starts at `start`, up to and
/// including its closing quote: the bytes it stands for and the position
/// just after it.
pub fn read_string(b: &[u8], start: usize) -> (r: Option<(Vec<u8>, usize)>)
    requires
        start <= b@.len(),
    ensures
        match r {
            Some((v, end)) => start < end <= b@.len() && unescape(b@.subrange(start as int, b@.len() as int))
                == Some((v@, end - start)),
            None => unescape(b@.subrange(start as int, b@.len() as int)) is None,
        },
{
    let ghost whole = b@.subrange(start as int, b@.len() as int);
    let mut out: Vec<u8> = Vec::new();
    let mut i: usize = start;
    assert(b@.subrange(i as int, b@.len() as int) =~= whole);
    assert(out@ + Seq::<u8>::empty() =~= out@);
    loop
        invariant
            start <= i <= b@.len(),
            whole == b@.subrange(start as int, b@.len() as int),
            unescape(whole) == prepend(out@, unescape(b@.subrange(i as int, b@.len() as int)), i - start),
        decreases b@.len() - i,
    {
        let ghost t = b@.subrange(i as int, b@.len() as int);
        if i >= b.len() {
            assert(unescape(t) is None);
            return None;
        }
        let x = b[i];
        assert(t[0] == x);
        if x == QUOTE {
            assert(out@ + Seq::<u8>::empty() =~= out@);
            assert(unescape(t) == Some((Seq::<u8>::empty(), 1int)));
            assert(unescape(whole) == Some((out@, i + 1 - start)));
            return Some((out, i + 1));
        } else if x == BACKSLASH {
            if i + 1 < b.len() && (b[i + 1] == QUOTE || b[i + 1] == BACKSLASH) {
                let y = b[i + 1];
                proof {
                    assert(t[1] == y);
                    assert(t.subrange(2, t.len() as int) =~= b@.subrange(i + 2, b@.len() as int));
                    lemma_prepend_push(out@, y, unescape(b@.subrange(i + 2, b@.len() as int)), i - start, 2);
                }
                out.push(y);
                i = i + 2;
            } else if i + 1 < b.len() && (b[i + 1] == 0x62 || b[i + 1] == 0x74 || b[i + 1] == 0x6e
                || b[i + 1] == 0x66 || b[i + 1] == 0x72 || b[i + 1] == 0x2f) {
                let y = short_escape_value_of(b[i + 1]);
                proof {
                    assert(t[1] == b@[i + 1]);
                    assert(t.subrange(2, t.len() as int) =~= b@.subrange(i + 2, b@.len() as int));
                    lemma_prepend_push(out@, y, unescape(b@.subrange(i + 2, b@.len() as int)), i - start, 2);
                }
                out.push(y);
                i = i + 2;
            } else if b.len() - i > 5 && b[i + 1] == 0x75 && b[i + 2] == 0x30 && b[i + 3] == 0x30
                && (b[i + 4] == 0x30 || b[i + 4] == 0x31) && (b[i + 5] <= 0x39 && b[i + 5] >= 0x30
                || b[i + 5] >= 0x61 && b[i + 5] <= 0x66) {
                let y = (b[i + 4] - 0x30) * 16 + hex_value_of(b[i + 5]);
                proof {
                    assert(t[1] == b@[i + 1] && t[2] == b@[i + 2] && t[3] == b@[i + 3]);
                    assert(t[4] == b@[i + 4] && t[5] == b@[i + 5]);
                    assert(t.subrange(6, t.len() as int) =~= b@.subrange(i + 6, b@.len() as int));
                    lemma_prepend_push(out@, y, unescape(b@.subrange(i + 6, b@.len() as int)), i - start, 6);
                }
                out.push(y);
                i = i + 6;
            } else {
                proof {
                    if t.len() >= 2 {
                        assert(t[1] == b@[i + 1]);
                    }
                    if t.len() >= 6 {
                        assert(t[1] == b@[i + 1] && t[2] == b@[i + 2] && t[3] == b@[i + 3]);
                        assert(t[4] == b@[i + 4] && t[5] == b@[i + 5]);
                    }
                }
                return None;
            }
        } else if x < 0x20 {
            assert(unescape(t) is None);
            return None;
        } else {
            proof {
                assert(t.subrange(1, t.len() as int) =~= b@.subrange(i + 1, b@.len() as int));
                lemma_prepend_push(out@, x, unescape(b@.subrange(i + 1, b@.len() as int)), i - start, 1);
            }
            out.push(x);
            i = i + 1;
        }
    }
}

fn open_tag_bytes() -> (r: Vec<u8>)
    ensures
        r@ == open_tag(),
{
    let r: Vec<u8> = vec![0x7b, 0x22, 0x66, 0x69, 0x6c, 0x65, 0x6e, 0x61, 0x6d, 0x65, 0x22, 0x3a, 0x22];
    proof {
        reveal(open_tag);
        assert(r@ =~= open_tag());
    }
    r
}

fn middle_tag_bytes() -> (r: Vec<u8>)
    ensures
        r@ == middle_tag(),
{
    let r: Vec<u8> = vec![0x2c, 0x22, 0x63, 0x68, 0x65, 0x63, 0x6b, 0x73, 0x75, 0x6d, 0x22, 0x3a, 0x22];
    proof {
        reveal(middle_tag);
        assert(r@ =~= middle_tag());
    }
    r
}

fn close_tag_bytes() -> (r: Vec<u8>)
    ensures
        r@ == close_tag(),
{
    let r: Vec<u8> = vec![0x7d];
    proof {
        reveal(close_tag);
        assert(r@ =~= close_tag());
    }
    r
}

/// Whether `tag` stands in `b` at `pos`.
fn matches_at(b: &[u8], pos: usize, tag: &[u8]) -> (r: bool)
    requires
        pos <= b@.len(),
    ensures
        r == (tag@.len() <= b@.len() - pos && b@.subrange(pos as int, pos + tag@.len()) == tag@),
{
    if tag.len() > b.len() - pos {
        return false;
    }
    let mut k: usize = 0;
    while k < tag.len()
        invariant
            k <= tag@.len(),
            pos + tag@.len() <= b@.len() <= usize::MAX,
            b@.subrange(pos as int, pos + k) == tag@.subrange(0, k as int),
        decreases tag@.len() - k,
    {
        if b[pos + k] != tag[k] {
            assert(b@.subrange(pos as int, pos + tag@.len())[k as int] == b@[pos + k]);
            return false;
        }
        assert(b@.subrange(pos as int, pos + k + 1) =~= b@.subrange(pos as int, pos + k).push(b@[pos + k]));
        assert(tag@.subrange(0, k + 1) =~= tag@.subrange(0, k as int).push(tag@[k as int]));
        k = k + 1;
    }
    assert(tag@.subrange(0, k as int) =~= tag@);
    true
}

/// The raw field bytes of the record `b`.
pub fn decode_fields(b: &[u8]) -> (r: Option<(Vec<u8>, Vec<u8>)>)
    ensures
        match r {
            Some((f, c)) => parse_fields(b@) == Some((f@, c@)),
            None => parse_fields(b@) is None,
        },
{
    proof { lemma_tag_lengths(); }
    let open = open_tag_bytes();
    if !matches_at(b, 0, open.as_slice()) {
        return None;
    }
    assert(b@.subrange(13, b@.len() as int) == b@.subrange(open_tag().len() as int, b@.len() as int));
    let (f, k) = match read_string(b, 13) {
        Some(found) => found,
        None => return None,
    };
    let middle = middle_tag_bytes();
    if !matches_at(b, k, middle.as_slice()) {
        return None;
    }
    assert(middle@.len() == 13);
    assert(b@.len() == b.len());
    let m = k + 13;
    let (c, e) = match read_string(b, m) {
        Some(found) => found,
        None => return None,
    };
    let close = close_tag_bytes();
    if b.len() - e != 1 || !matches_at(b, e, close.as_slice()) {
        proof {
            if b@.subrange(e as int, b@.len() as int) == close_tag() {
                assert(b@.subrange(e as int, e + 1) =~= b@.subrange(e as int, b@.len() as int));
            }
        }
        return None;
    }
    assert(b@.subrange(e as int, e + 1) =~= b@.subrange(e as int, b@.len() as int));
    Some((f, c))
}

/// Appends the escaped form of `s` to `out`.
fn push_escaped(out: &mut Vec<u8>, s: &[u8])
    ensures
        final(out)@ == old(out)@ + escape(s@),
{
    let ghost start = out@;
    let mut i: usize = 0;
    assert(s@.subrange(0, 0) =~= Seq::<u8>::empty());
    assert(start + Seq::<u8>::empty() =~= start);
    while i < s.len()
        invariant
            i <= s@.len(),
            out@ == start + escape(s@.subrange(0, i as int)),
        decreases s@.len() - i,
    {
        let b = s[i];
        let ghost before = out@;
        if b == QUOTE {
            out.push(BACKSLASH);
            out.push(QUOTE);
        } else if b == BACKSLASH {
            out.push(BACKSLASH);
            out.push(BACKSLASH);
        } else if b < 0x20 {
            let hi = b / 16;
            let lo = b % 16;
            out.push(BACKSLASH);
            out.push(0x75);
            out.push(0x30);
            out.push(0x30);
            out.push(if hi < 10 { 0x30 + hi } else { 0x61 + hi - 10 });
            out.push(if lo < 10 { 0x30 + lo } else { 0x61 + lo - 10 });
        } else {
            out.push(b);
        }
        proof {
            assert(out@ =~= before + escape_byte(b));
            let p = s@.subrange(0, i + 1);
            assert(p.drop_last() =~= s@.subrange(0, i as int));
            assert(p.last() == b);
            assert(escape(p) == escape(p.drop_last()) + escape_byte(b));
            assert(out@ =~= start + escape(p));
        }
        i = i + 1;
    }
    assert(s@.subrange(0, i as int) =~= s@);
}

/// Relies on `String::from_utf8`: it accepts exactly the valid UTF-8 byte
/// vectors, and the text it returns is the one those bytes encode.
#[verifier::external_body]
fn text_from_utf8(bytes: Vec<u8>) -> (r: Option<String>)
    ensures
        r is Some <==> valid_utf8(bytes@),
        r matches Some(s) ==> s@ == decode_utf8(bytes@),
{
    String::from_utf8(bytes).ok()
}

/// The header sent ahead of a payload: the name to store it under and the
/// lowercase hex md5 digest of its content.
pub struct Header {
    pub filename: String,
    pub checksum: String,
}

impl Header {
    pub fn new(filename: String, checksum: String) -> (r: Header)
        ensures
            r.filename@ == filename@,
            r.checksum@ == checksum@,
    {
        Header { filename, checksum }
    }

    /// The record for this header.
    pub fn encode(&self) -> (r: Vec<u8>)
        ensures
            r@ == header_bytes(self.filename@, self.checksum@),
    {
        let mut out = open_tag_bytes();
        push_escaped(&mut out, self.filename.as_str().as_bytes());
        out.push(QUOTE);
        let mut middle = middle_tag_bytes();
        out.append(&mut middle);
        push_escaped(&mut out, self.checksum.as_str().as_bytes());
        out.push(QUOTE);
        out.push(0x7d);
        proof {
            reveal(close_tag);
            assert(out@ =~= header_bytes(self.filename@, self.checksum@));
        }
        out
    }

    /// Reads a header segment: a record with the two fields in the order
    /// that `encode` writes them, no spaces, and UTF-8 field text.
    pub fn decode(b: &[u8]) -> (r: Result<Header, ParseError>)
        ensures
            r matches Ok(h) ==> decoded(b@) == Ok::<(Seq<char>, Seq<char>), ParseError>((h.filename@, h.checksum@)),
            r matches Err(e) ==> decoded(b@) == Err::<(Seq<char>, Seq<char>), ParseError>(e),
    {
        let (f, c) = match decode_fields(b) {
            Some(fields) => fields,
            None => return Err(ParseError::Malformed),
        };
        let filename = match text_from_utf8(f) {
            Some(s) => s,
            None => return Err(ParseError::InvalidText),
        };
        let checksum = match text_from_utf8(c) {
            Some(s) => s,
            None => return Err(ParseError::InvalidText),
        };
        Ok(Header { filename, checksum })
    }
}

} // verus!
