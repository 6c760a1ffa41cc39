//! One transfer on one stream: what the server makes of the bytes it
//! received, and what the client sends and where it stores the answer.

use vstd::prelude::*;
use vstd::utf8::encode_utf8;
use crate::digest::{checksum_hex, checksums_match, checksum_of, same_ignoring_case};
use crate::framing::{
    FrameReader, FramingError, DELIMITER, split_stream, lemma_split_at, is_first_delimiter,
};
use crate::header::{Header, ParseError, decoded, header_bytes, lemma_header_round_trip, lemma_record_has_no_delimiter};

verus! {

/// Why a session ended without a transfer.
#[derive(Debug, Clone, Copy, PartialEq, Eq)]
pub enum SessionError {
    Framing(FramingError),
    Parse(ParseError),
}

/// What a server received on one stream, ready to be stored and echoed.
pub struct Upload {
    pub header: Header,
    pub payload: Vec<u8>,
    /// Whether the payload's digest equals the declared checksum.
    pub checksum_ok: bool,
}

/// Whether `payload` carries the digest that `checksum` declares.
pub open spec fn checksum_holds(checksum: Seq<char>, payload: Seq<u8>) -> bool {
    same_ignoring_case(encode_utf8(checksum), encode_utf8(checksum_of(payload)))
}

/// What a whole stream amounts to: filename, declared checksum, payload and
/// whether the payload matches the checksum; or why it is refused.
pub open spec fn upload_of(stream: Seq<u8>) -> Result<(Seq<char>, Seq<char>, Seq<u8>, bool), SessionError> {
    match split_stream(stream) {
        None => Err(SessionError::Framing(FramingError::MissingSeparator)),
        Some((h, p)) => match decoded(h) {
            Err(e) => Err(SessionError::Parse(e)),
            Ok((f, c)) => Ok((f, c, p, checksum_holds(c, p))),
        },
    }
}

/// The server side of one stream, up to the end of the peer's input.
pub struct ServerSession {
    reader: FrameReader,
}

impl ServerSession {
    /// Every byte received so far, in order.
    pub closed spec fn received(&self) -> Seq<u8> {
        self.reader.received()
    }

    pub closed spec fn wf(&self) -> bool {
        self.reader.wf()
    }

    pub fn new() -> (r: ServerSession)
        ensures
            r.wf(),
            r.received() == Seq::<u8>::empty(),
    {
        ServerSession { reader: FrameReader::new() }
    }

    /// Takes in the next chunk from the peer.
    pub fn receive(&mut self, chunk: &[u8])
        requires
            old(self).wf(),
        ensures
            final(self).wf(),
            final(self).received() == old(self).received() + chunk@,
    {
        self.reader.feed(chunk);
    }

    /// The phase the session is in while it receives.
    pub fn phase(&self) -> (r: Phase)
        requires
            self.wf(),
        ensures
            r == (if split_stream(self.received()) is Some { Phase::AwaitingPayload } else { Phase::AwaitingHeader }),
    {
        if self.reader.separator_found() { Phase::AwaitingPayload } else { Phase::AwaitingHeader }
    }

    /// Whether the header segment is complete.
    pub fn header_complete(&self) -> (r: bool)
        requires
            self.wf(),
        ensures
            r == split_stream(self.received()) is Some,
    {
        self.reader.separator_found()
    }

    /// The peer finished sending: the upload, or why the stream is refused.
    /// A checksum that does not match is reported, not refused.
    pub fn end_of_input(self) -> (r: Result<Upload, SessionError>)
        requires
            self.wf(),
        ensures
            r matches Ok(u) ==> upload_of(self.received()) == Ok::<_, SessionError>(
                (u.header.filename@, u.header.checksum@, u.payload@, u.checksum_ok),
            ),
            r matches Err(e) ==> upload_of(self.received()) == Err::<(Seq<char>, Seq<char>, Seq<u8>, bool), _>(e),
    {
        let (head, payload) = match self.reader.finish() {
            Ok(parts) => parts,
            Err(e) => return Err(SessionError::Framing(e)),
        };
        let header = match Header::decode(head.as_slice()) {
            Ok(h) => h,
            Err(e) => return Err(SessionError::Parse(e)),
        };
        let computed = checksum_hex(payload.as_slice());
        let checksum_ok = checksums_match(header.checksum.as_str(), computed.as_str());
        Ok(Upload { header, payload, checksum_ok })
    }
}

/// Where a server session stands.
#[derive(Debug, Clone, Copy, PartialEq, Eq)]
pub enum Phase {
    AwaitingHeader,
    AwaitingPayload,
    Verifying,
    Persisting,
    Echoing,
    Closed,
    Aborted,
}

/// What happened to a server session.
#[derive(Debug, Clone, Copy, PartialEq, Eq)]
pub enum Event {
    /// The delimiter arrived.
    HeaderComplete,
    /// The peer finished sending.
    EndOfInput,
    /// The header was decoded and the payload's digest compared, whatever
    /// the comparison gave.
    Checked,
    /// The payload was written to storage.
    Stored,
    /// The stored content was sent back and the stream finished.
    Sent,
    /// Decoding, storage or the stream failed.
    Failed,
}

pub open spec fn is_terminal(p: Phase) -> bool {
    p == Phase::Closed || p == Phase::Aborted
}

/// The phase after `e` happens in phase `p`; an event that does not belong
/// to the phase leaves it as it is.
pub open spec fn next_phase_of(p: Phase, e: Event) -> Phase {
    if is_terminal(p) {
        p
    } else if e == Event::Failed {
        Phase::Aborted
    } else {
        match (p, e) {
            (Phase::AwaitingHeader, Event::HeaderComplete) => Phase::AwaitingPayload,
            (Phase::AwaitingHeader, Event::EndOfInput) => Phase::Aborted,
            (Phase::AwaitingPayload, Event::EndOfInput) => Phase::Verifying,
            (Phase::Verifying, Event::Checked) => Phase::Persisting,
            (Phase::Persisting, Event::Stored) => Phase::Echoing,
            (Phase::Echoing, Event::Sent) => Phase::Closed,
            _ => p,
        }
    }
}

/// The phase after `e` happens in phase `p`.
pub fn next_phase(p: Phase, e: Event) -> (r: Phase)
    ensures
        r == next_phase_of(p, e),
{
    if matches!(p, Phase::Closed | Phase::Aborted) {
        return p;
    }
    match (p, e) {
        (_, Event::Failed) => Phase::Aborted,
        (Phase::AwaitingHeader, Event::HeaderComplete) => Phase::AwaitingPayload,
        (Phase::AwaitingHeader, Event::EndOfInput) => Phase::Aborted,
        (Phase::AwaitingPayload, Event::EndOfInput) => Phase::Verifying,
        (Phase::Verifying, Event::Checked) => Phase::Persisting,
        (Phase::Persisting, Event::Stored) => Phase::Echoing,
        (Phase::Echoing, Event::Sent) => Phase::Closed,
        _ => p,
    }
}

/// A finished session stays finished, and a failure ends any other.
pub proof fn lemma_phase_terminal(p: Phase, e: Event)
    ensures
        is_terminal(p) ==> next_phase_of(p, e) == p,
        !is_terminal(p) && e == Event::Failed ==> next_phase_of(p, e) == Phase::Aborted,
{
}

/// The bytes a client sends for `content` stored under `filename`.
pub open spec fn request_bytes(filename: Seq<char>, content: Seq<u8>) -> Seq<u8> {
    header_bytes(filename, checksum_of(content)) + seq![DELIMITER] + content
}

/// The header a client declares for `content` stored under `filename`.
pub fn request_header(filename: String, content: &[u8]) -> (r: Header)
    ensures
        r.filename@ == filename@,
        r.checksum@ == checksum_of(content@),
{
    Header::new(filename, checksum_hex(content))
}

/// Everything a client sends on its stream: the header, the delimiter and
/// the content.
pub fn build_request(filename: String, content: &[u8]) -> (r: Vec<u8>)
    ensures
        r@ == request_bytes(filename@, content@),
{
    let header = request_header(filename, content);
    let mut out = header.encode();
    out.push(DELIMITER);
    out.extend_from_slice(content);
    assert(out@ =~= request_bytes(header.filename@, content@));
    out
}

/// The name a client stores the echoed content under.
pub open spec fn response_name(filename: Seq<char>) -> Seq<char> {
    seq!['r', 'e', 'c', 'e', 'i', 'v', 'e', 'd', '_'] + filename
}

/// The name a client stores the echoed content under.
pub fn response_filename(filename: &str) -> (r: String)
    ensures
        r@ == response_name(filename@),
{
    let prefix = String::from_str("received_");
    proof {
        reveal_strlit("received_");
    }
    let r = prefix.concat(filename);
    assert(r@ =~= response_name(filename@));
    r
}

/// A stream made of a record for `filename` and `checksum`, the delimiter
/// and `content` yields that filename, checksum and content, with the
/// checksum judged against the content.
pub proof fn lemma_upload_of_record(filename: Seq<char>, checksum: Seq<char>, content: Seq<u8>)
    ensures
        upload_of(header_bytes(filename, checksum) + seq![DELIMITER] + content) == Ok::<_, SessionError>(
            (filename, checksum, content, checksum_holds(checksum, content)),
        ),
{
    let h = header_bytes(filename, checksum);
    let s = h + seq![DELIMITER] + content;
    lemma_record_has_no_delimiter(encode_utf8(filename), encode_utf8(checksum));
    assert(s.subrange(0, h.len() as int) =~= h);
    assert(s.subrange(h.len() + 1int, s.len() as int) =~= content);
    assert(is_first_delimiter(s, h.len() as int));
    lemma_split_at(s, h.len() as int);
    lemma_header_round_trip(filename, checksum);
}

/// A client's request, whatever chunks it arrives in, gives the server the
/// declared filename, the exact content, and a checksum that matches.
pub proof fn lemma_request_delivered(filename: Seq<char>, content: Seq<u8>)
    ensures
        upload_of(request_bytes(filename, content)) == Ok::<_, SessionError>(
            (filename, checksum_of(content), content, true),
        ),
{
    lemma_upload_of_record(filename, checksum_of(content), content);
}

/// The bytes a session holds after `receive` took each of `chunks` in turn.
pub open spec fn fed(chunks: Seq<Seq<u8>>) -> Seq<u8>
    decreases chunks.len(),
{
    if chunks.len() == 0 {
        Seq::empty()
    } else {
        fed(chunks.drop_last()) + chunks.last()
    }
}

/// However a client's request is cut into chunks, the session computes the
/// digest over the whole payload: the outcome is the one for the request
/// taken whole, with a checksum that matches.
pub proof fn lemma_chunking_irrelevant(filename: Seq<char>, content: Seq<u8>, chunks: Seq<Seq<u8>>)
    requires
        fed(chunks) == request_bytes(filename, content),
    ensures
        upload_of(fed(chunks)) == upload_of(request_bytes(filename, content)),
        upload_of(fed(chunks)) == Ok::<_, SessionError>((filename, checksum_of(content), content, true)),
{
    lemma_request_delivered(filename, content);
}

/// A payload that does not match its declared checksum is still delivered
/// whole, with the mismatch reported.
pub proof fn lemma_mismatch_delivered(filename: Seq<char>, checksum: Seq<char>, content: Seq<u8>)
    requires
        !checksum_holds(checksum, content),
    ensures
        upload_of(header_bytes(filename, checksum) + seq![DELIMITER] + content) == Ok::<_, SessionError>(
            (filename, checksum, content, false),
        ),
{
    lemma_upload_of_record(filename, checksum, content);
}

} // verus!
