//! A small versioned message envelope: a version, a message type and text.

use vstd::prelude::*;
use vstd::string::StrSliceExecFns;

verus! {

pub const PROTO_VERSION: u8 = 0x01;
pub const MSG_TYPE_DATA: u8 = 0x01;
pub const MSG_TYPE_ACK: u8 = 0x02;

/// Decimal digits of `n`, most significant first.
pub open spec fn decimal(n: nat) -> Seq<char>
    decreases n,
{
    if n < 10 {
        seq![(0x30 + n) as char]
    } else {
        decimal(n / 10) + seq![(0x30 + n % 10) as char]
    }
}

/// Text as std's `Debug` writes it: quoted, with escapes.
pub uninterp spec fn debug_quoted(s: Seq<char>) -> Seq<char>;

/// Relies on `<str as Debug>::fmt`: the text between double quotes with
/// std's escapes, which depends on the text alone.
#[verifier::external_body]
fn quote_for_debug(s: &str) -> (r: String)
    ensures
        r@ == debug_quoted(s@),
{
    format!("{:?}", s)
}

/// The multi-line debug form of an envelope, with the message already
/// quoted.
pub open spec fn debug_text(ver: u8, mtype: u8, quoted: Seq<char>) -> Seq<char> {
    "EchoProtocol {\n    ver: "@ + decimal(ver as nat) + ",\n    mtype: "@ + decimal(mtype as nat)
        + ",\n    msg: "@ + quoted + ",\n}"@
}

/// One decimal digit as text.
fn digit_text(d: u8) -> (r: String)
    requires
        d < 10,
    ensures
        r@ == seq![(0x30 + d) as char],
{
    let digits = "0123456789";
    proof {
        reveal_strlit("0123456789");
    }
    let r = String::from_str(digits.substring_ascii(d as usize, d as usize + 1));
    assert(r@ =~= seq![(0x30 + d) as char]);
    r
}

/// `n` in decimal.
pub fn decimal_text(n: u8) -> (r: String)
    ensures
        r@ == decimal(n as nat),
{
    if n < 10 {
        digit_text(n)
    } else if n < 100 {
        let r = digit_text(n / 10).concat(digit_text(n % 10).as_str());
        assert(decimal((n / 10) as nat) == seq![(0x30 + n / 10) as char]);
        assert(r@ =~= decimal(n as nat));
        r
    } else {
        let r = digit_text(n / 100).concat(digit_text(n / 10 % 10).as_str()).concat(
            digit_text(n % 10).as_str(),
        );
        assert(decimal((n / 100) as nat) == seq![(0x30 + n / 100) as char]);
        assert(decimal((n / 10) as nat) == decimal((n / 100) as nat) + seq![(0x30 + n / 10 % 10) as char]);
        assert(r@ =~= decimal(n as nat));
        r
    }
}

/// The debug form of an envelope from its fields, the message given already
/// quoted.
pub fn debug_text_of(ver: u8, mtype: u8, quoted: &str) -> (r: String)
    ensures
        r@ == debug_text(ver, mtype, quoted@),
{
    let r = String::from_str("EchoProtocol {\n    ver: ").concat(decimal_text(ver).as_str()).concat(
        ",\n    mtype: ",
    ).concat(decimal_text(mtype).as_str()).concat(",\n    msg: ").concat(quoted).concat(",\n}");
    r
}

/// A message envelope.
pub struct EchoProtocol {
    pub ver: u8,
    pub mtype: u8,
    pub msg: String,
}

impl EchoProtocol {
    /// An envelope of the current version with the given type and message.
    pub fn create(mtype: u8, msg: String) -> (r: Self)
        ensures
            r.ver == PROTO_VERSION,
            r.mtype == mtype,
            r.msg@ == msg@,
    {
        EchoProtocol { ver: PROTO_VERSION, mtype, msg }
    }

    /// The multi-line debug form of this envelope.
    pub fn debug_string(&self) -> (r: String)
        ensures
            r@ == debug_text(self.ver, self.mtype, debug_quoted(self.msg@)),
    {
        let quoted = quote_for_debug(self.msg.as_str());
        debug_text_of(self.ver, self.mtype, quoted.as_str())
    }
}

} // verus!
