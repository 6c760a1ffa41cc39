//! Splitting an incoming byte stream into a header segment and a payload at
//! the first delimiter byte.

use vstd::prelude::*;

verus! {

/// The byte that separates the header segment from the payload (a newline).
pub const DELIMITER: u8 = 0x0a;

/// `s` holds no delimiter byte.
pub open spec fn has_no_delimiter(s: Seq<u8>) -> bool {
    forall|j: int| 0 <= j < s.len() ==> s[j] != DELIMITER
}

/// `i` is the position of the first delimiter byte in `s`.
pub open spec fn is_first_delimiter(s: Seq<u8>, i: int) -> bool {
    &&& 0 <= i < s.len()
    &&& s[i] == DELIMITER
    &&& has_no_delimiter(s.subrange(0, i))
}

/// The header segment and the payload of a whole stream: the bytes before
/// the first delimiter and those after it; `None` when no delimiter occurs.
pub open spec fn split_stream(s: Seq<u8>) -> Option<(Seq<u8>, Seq<u8>)> {
    if has_no_delimiter(s) {
        None
    } else {
        let i = choose|i: int| is_first_delimiter(s, i);
        Some((s.subrange(0, i), s.subrange(i + 1, s.len() as int)))
    }
}

/// A stream whose first delimiter stands at `i` splits at `i`.
pub proof fn lemma_split_at(s: Seq<u8>, i: int)
    requires
        is_first_delimiter(s, i),
    ensures
        split_stream(s) == Some((s.subrange(0, i), s.subrange(i + 1, s.len() as int))),
{
    assert(s.subrange(0, i + 1)[i] == DELIMITER);
    assert(!has_no_delimiter(s));
    let k = choose|k: int| is_first_delimiter(s, k);
    if k < i {
        assert(s.subrange(0, i)[k] == s[k]);
    } else if i < k {
        assert(s.subrange(0, k)[i] == s[i]);
    }
}

/// The stream ended before any delimiter was seen.
#[derive(Debug, Clone, Copy, PartialEq, Eq)]
pub enum FramingError {
    MissingSeparator,
}

/// Position of the first delimiter byte of `bytes`, if there is one.
pub fn find_delimiter(bytes: &[u8]) -> (r: Option<usize>)
    ensures
        match r {
            Some(i) => is_first_delimiter(bytes@, i as int),
            None => has_no_delimiter(bytes@),
        },
{
    let mut i: usize = 0;
    while i < bytes.len()
        invariant
            i <= bytes@.len(),
            has_no_delimiter(bytes@.subrange(0, i as int)),
        decreases bytes.len() - i,
    {
        if bytes[i] == DELIMITER {
            return Some(i);
        }
        assert(bytes@.subrange(0, i + 1) =~= bytes@.subrange(0, i as int).push(bytes@[i as int]));
        i = i + 1;
    }
    assert(bytes@.subrange(0, i as int) =~= bytes@);
    None
}

/// Accumulates the chunks of one stream until the delimiter is found, then
/// gathers what follows it as payload.
pub struct FrameReader {
    header: Vec<u8>,
    payload: Vec<u8>,
    found: bool,
    received: Ghost<Seq<u8>>,
}

impl FrameReader {
    /// Every byte fed so far, in order.
    pub closed spec fn received(&self) -> Seq<u8> {
        self.received@
    }

    pub closed spec fn wf(&self) -> bool {
        if self.found {
            &&& is_first_delimiter(self.received@, self.header@.len() as int)
            &&& self.header@ == self.received@.subrange(0, self.header@.len() as int)
            &&& self.payload@ == self.received@.subrange(
                self.header@.len() + 1 as int,
                self.received@.len() as int,
            )
        } else {
            &&& has_no_delimiter(self.received@)
            &&& self.header@ == self.received@
            &&& self.payload@.len() == 0
        }
    }

    pub fn new() -> (r: FrameReader)
        ensures
            r.wf(),
            r.received() == Seq::<u8>::empty(),
    {
        FrameReader { header: Vec::new(), payload: Vec::new(), found: false, received: Ghost(Seq::empty()) }
    }

    /// Whether the delimiter has been seen.
    pub fn separator_found(&self) -> (r: bool)
        requires
            self.wf(),
        ensures
            r == split_stream(self.received()) is Some,
    {
        if self.found {
            proof { lemma_split_at(self.received@, self.header@.len() as int); }
        }
        self.found
    }

    /// Takes in the next chunk of the stream.
    pub fn feed(&mut self, chunk: &[u8])
        requires
            old(self).wf(),
        ensures
            final(self).wf(),
            final(self).received() == old(self).received() + chunk@,
    {
        let ghost before = self.received@;
        let ghost all = before + chunk@;
        if self.found {
            let ghost old_payload = self.payload@;
            self.payload.extend_from_slice(chunk);
            proof {
                assert(self.payload@ =~= old_payload + chunk@);
                let h = self.header@.len() as int;
                assert(all.subrange(0, h) =~= before.subrange(0, h));
                assert(all[h] == before[h]);
                assert(all.subrange(h + 1, all.len() as int) =~= before.subrange(h + 1, before.len() as int) + chunk@);
            }
            self.received = Ghost(all);
        } else {
            match find_delimiter(chunk) {
                Some(i) => {
                    assert(i < chunk.len());
                    self.header.extend_from_slice(&chunk[0..i]);
                    self.payload.extend_from_slice(&chunk[i + 1..chunk.len()]);
                    self.found = true;
                    self.received = Ghost(all);
                    proof {
                        let h = before.len() + i as int;
                        assert(self.header@ =~= all.subrange(0, h));
                        assert(self.payload@ =~= all.subrange(h + 1, all.len() as int));
                        assert(all[h] == chunk@[i as int]);
                        assert(self.header@.len() == h);
                        assert(has_no_delimiter(all.subrange(0, h))) by {
                            assert forall|j: int| 0 <= j < h implies all.subrange(0, h)[j] != DELIMITER by {
                                assert(all.subrange(0, h)[j] == all[j]);
                                if j >= before.len() {
                                    assert(all[j] == chunk@[j - before.len()]);
                                    assert(chunk@.subrange(0, i as int)[j - before.len()] == chunk@[j - before.len()]);
                                } else {
                                    assert(all[j] == before[j]);
                                }
                            }
                        }
                    }
                },
                None => {
                    self.header.extend_from_slice(chunk);
                    self.received = Ghost(all);
                    proof {
                        assert(self.header@ =~= all);
                        assert forall|j: int| 0 <= j < all.len() implies all[j] != DELIMITER by {
                            if j >= before.len() {
                                assert(all[j] == chunk@[j - before.len()]);
                            }
                        }
                    }
                },
            }
        }
    }

    /// Ends the stream: the header segment and the payload, or an error when
    /// no delimiter ever came.
    pub fn finish(self) -> (r: Result<(Vec<u8>, Vec<u8>), FramingError>)
        requires
            self.wf(),
        ensures
            r is Err <==> split_stream(self.received()) is None,
            r matches Ok((h, p)) ==> split_stream(self.received()) == Some((h@, p@)),
    {
        if self.found {
            proof { lemma_split_at(self.received@, self.header@.len() as int); }
            Ok((self.header, self.payload))
        } else {
            Err(FramingError::MissingSeparator)
        }
    }
}

} // verus!
