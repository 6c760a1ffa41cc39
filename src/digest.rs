//! Content digests: md5 over a byte sequence, written as lowercase hex, and
//! the comparison of a declared checksum with a computed one.

use vstd::prelude::*;
use vstd::utf8::encode_utf8;

verus! {

/// The md5 digest of `data`.
pub uninterp spec fn md5_of(data: Seq<u8>) -> Seq<u8>;

/// Lowercase hexadecimal digit for `n < 16`.
pub open spec fn hex_char(n: u8) -> char {
    if n < 10 { (0x30 + n) as char } else { (0x61 + n - 10) as char }
}

/// Two lowercase hex digits per byte, most significant first.
pub open spec fn hex_text(bytes: Seq<u8>) -> Seq<char>
    decreases bytes.len(),
{
    if bytes.len() == 0 {
        Seq::empty()
    } else {
        hex_text(bytes.drop_last()) + seq![hex_char(bytes.last() / 16), hex_char(bytes.last() % 16)]
    }
}

/// The checksum of `data` as it travels in a header.
pub open spec fn checksum_of(data: Seq<u8>) -> Seq<char> {
    hex_text(md5_of(data))
}

/// Relies on `md5::compute`: the 16-byte md5 digest of the bytes handed to
/// it, which depends on those bytes alone.
#[verifier::external_body]
fn md5_digest(data: &[u8]) -> (r: [u8; 16])
    ensures
        r@ == md5_of(data@),
{
    md5::compute(data).0
}

/// Relies on md5's `LowerHex` for `Digest`: each byte of the digest in turn
/// as two lowercase hex digits (`{:02x}`).
#[verifier::external_body]
fn lower_hex(d: [u8; 16]) -> (r: String)
    ensures
        r@ == hex_text(d@),
{
    format!("{:x}", md5::Digest(d))
}

/// The lowercase hex md5 digest of `data`.
pub fn checksum_hex(data: &[u8]) -> (r: String)
    ensures
        r@ == checksum_of(data@),
{
    let d = md5_digest(data);
    lower_hex(d)
}

/// `b` with an uppercase ASCII letter turned lowercase.
pub open spec fn ascii_lower(b: u8) -> u8 {
    if 0x41 <= b <= 0x5a { (b + 32) as u8 } else { b }
}

/// `a` and `b` are equal once ASCII letters are lowercased.
pub open spec fn same_ignoring_case(a: Seq<u8>, b: Seq<u8>) -> bool {
    &&& a.len() == b.len()
    &&& forall|i: int| 0 <= i < a.len() ==> ascii_lower(#[trigger] a[i]) == ascii_lower(b[i])
}

/// Whether a declared checksum equals a computed one, both lowercased.
pub fn checksums_match(declared: &str, computed: &str) -> (r: bool)
    ensures
        r == same_ignoring_case(encode_utf8(declared@), encode_utf8(computed@)),
{
    let a = declared.as_bytes();
    let b = computed.as_bytes();
    if a.len() != b.len() {
        return false;
    }
    let mut i: usize = 0;
    while i < a.len()
        invariant
            i <= a@.len() == b@.len(),
            a@ == encode_utf8(declared@),
            b@ == encode_utf8(computed@),
            forall|j: int| 0 <= j < i ==> ascii_lower(#[trigger] a@[j]) == ascii_lower(b@[j]),
        decreases a@.len() - i,
    {
        let x = if a[i] >= 0x41 && a[i] <= 0x5a { a[i] + 32 } else { a[i] };
        let y = if b[i] >= 0x41 && b[i] <= 0x5a { b[i] + 32 } else { b[i] };
        assert(x == ascii_lower(a@[i as int]) && y == ascii_lower(b@[i as int]));
        if x != y {
            return false;
        }
        i = i + 1;
    }
    true
}

} // verus!
