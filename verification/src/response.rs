//! Classification of HTTP responses into the error taxonomy.
//!
//! The transport hands these functions the status code and the response
//! text it already read; they decide the outcome. The contracts state
//! the full status table, so a status of 401 yields
//! `InvalidCredentials` whatever the body holds, and only 200 and 204
//! succeed.

use vstd::prelude::*;

use crate::error::Error;
use crate::serialization::conversion;
use crate::serialization::spec_conversion;

verus! {

/// Classify a write response: 200 and 204 succeed; 400 is a syntax
/// error with the boilerplate-stripped body as message; 401 and 403 are
/// credential failures with a fixed message; 404 means the database
/// does not exist; 500 means the retention policy does not exist, with
/// the raw body as message; anything else is unknown.
pub fn write_response(status: u16, body: &str) -> (r: Result<(), Error>)
    ensures
        r is Ok <==> (status == 200 || status == 204),
        status == 400 ==> (r matches Err(e) && e matches Error::SyntaxError(m) && m@
            == spec_conversion(body@)),
        (status == 401 || status == 403) ==> (r matches Err(e)
            && e matches Error::InvalidCredentials(m) && m@
            == "Invalid authentication credentials."@),
        status == 404 ==> (r matches Err(e) && e matches Error::DataBaseDoesNotExist(m) && m@
            == spec_conversion(body@)),
        status == 500 ==> (r matches Err(e) && e matches Error::RetentionPolicyDoesNotExist(m)
            && m@ == body@),
        !(status == 200 || status == 204 || status == 400 || status == 401 || status == 403
            || status == 404 || status == 500) ==> (r matches Err(e)
            && e matches Error::Unknown(m) && m@ == "There is something wrong"@),
{
    if status == 200 || status == 204 {
        Ok(())
    } else if status == 400 {
        Err(Error::SyntaxError(conversion(body)))
    } else if status == 401 || status == 403 {
        Err(Error::InvalidCredentials("Invalid authentication credentials.".to_owned()))
    } else if status == 404 {
        Err(Error::DataBaseDoesNotExist(conversion(body)))
    } else if status == 500 {
        Err(Error::RetentionPolicyDoesNotExist(body.to_owned()))
    } else {
        Err(Error::Unknown("There is something wrong".to_owned()))
    }
}

/// Classify a query response: 200 and 204 succeed (the body is then
/// parsed as a query document by the transport layer); 400 is a syntax
/// error whose message is the boilerplate-stripped `error` field that
/// the caller extracted from the body's JSON document; 401 and 403 are
/// credential failures with a fixed message; anything else is unknown.
pub fn query_response(status: u16, error_field: &str) -> (r: Result<(), Error>)
    ensures
        r is Ok <==> (status == 200 || status == 204),
        status == 400 ==> (r matches Err(e) && e matches Error::SyntaxError(m) && m@
            == spec_conversion(error_field@)),
        (status == 401 || status == 403) ==> (r matches Err(e)
            && e matches Error::InvalidCredentials(m) && m@
            == "Invalid authentication credentials."@),
        !(status == 200 || status == 204 || status == 400 || status == 401 || status == 403)
            ==> (r matches Err(e) && e matches Error::Unknown(m) && m@
            == "There is something wrong"@),
{
    if status == 200 || status == 204 {
        Ok(())
    } else if status == 400 {
        Err(Error::SyntaxError(conversion(error_field)))
    } else if status == 401 || status == 403 {
        Err(Error::InvalidCredentials("Invalid authentication credentials.".to_owned()))
    } else {
        Err(Error::Unknown("There is something wrong".to_owned()))
    }
}

// ---------- splitting a chunked response into its documents ----------

/// What a scan for the end of the first JSON document found. Spec-side
/// mirror of [`ChunkStep`], carrying the end position.
pub enum ScanOutcome {
    /// The buffer holds no complete document yet.
    Incomplete,
    /// The first document ends (exclusively) at this position.
    EndsAt(int),
    /// A closing brace arrived outside any document: the stream is
    /// corrupt, and no later bytes can mend it.
    Corrupt,
}

/// Scan the buffer from position `i` in the given scanner state for
/// the end of the first JSON document. A document is a brace-balanced
/// object; braces inside strings do not count, and a backslash inside
/// a string escapes the next byte. Bytes outside any document and
/// outside a string other than `{` and `}` are skipped, which accepts
/// the whitespace the database puts between chunks.
pub open spec fn scan_from(s: Seq<u8>, i: int, depth: nat, in_str: bool, esc: bool) -> ScanOutcome
    decreases s.len() - i,
{
    if i < 0 || i >= s.len() {
        ScanOutcome::Incomplete
    } else {
        let b = s[i];
        if in_str {
            if esc {
                scan_from(s, i + 1, depth, true, false)
            } else if b == 92 {
                scan_from(s, i + 1, depth, true, true)
            } else if b == 34 {
                scan_from(s, i + 1, depth, false, false)
            } else {
                scan_from(s, i + 1, depth, true, false)
            }
        } else {
            if b == 34 && depth > 0 {
                scan_from(s, i + 1, depth, true, false)
            } else if b == 123 {
                scan_from(s, i + 1, depth + 1, false, false)
            } else if b == 125 {
                if depth == 1 {
                    ScanOutcome::EndsAt(i + 1)
                } else if depth == 0 {
                    ScanOutcome::Corrupt
                } else {
                    scan_from(s, i + 1, (depth - 1) as nat, false, false)
                }
            } else {
                scan_from(s, i + 1, depth, false, false)
            }
        }
    }
}

/// Where the first complete JSON document of the buffer ends.
pub open spec fn first_document_end(s: Seq<u8>) -> ScanOutcome {
    scan_from(s, 0, 0, false, false)
}

/// One pull from a [`ChunkCursor`].
#[derive(Clone, Debug, PartialEq)]
pub enum ChunkStep {
    /// The bytes of the next complete JSON document, in arrival order.
    Document(Vec<u8>),
    /// The buffered bytes hold no complete document yet; feed more.
    NeedMore,
    /// The stream is corrupt at the front of the buffer; no later
    /// bytes can mend it. Distinct from `NeedMore`: end of input with
    /// a clean buffer is the end of the sequence, this is a defect.
    Corrupt,
}

/// A pull-based, forward-only splitter of a chunked response body into
/// its JSON documents. The transport feeds bytes in as they arrive;
/// each successful pull yields exactly the bytes of the next document,
/// so documents come out in arrival order and nothing later is
/// buffered before earlier documents are consumed.
pub struct ChunkCursor {
    /// The bytes received and not yet handed out.
    pub buf: Vec<u8>,
}

impl ChunkCursor {
    /// An empty cursor.
    pub fn new() -> (r: ChunkCursor)
        ensures
            r.buf@ == Seq::<u8>::empty(),
    {
        ChunkCursor { buf: Vec::new() }
    }

    /// Append freshly arrived bytes at the end of the buffer.
    pub fn feed(&mut self, bytes: &[u8])
        ensures
            final(self).buf@ == old(self).buf@ + bytes@,
    {
        let mut i: usize = 0;
        while i < bytes.len()
            invariant
                i <= bytes@.len(),
                self.buf@ == old(self).buf@ + bytes@.take(i as int),
            decreases bytes@.len() - i,
        {
            self.buf.push(bytes[i]);
            assert(self.buf@ =~= old(self).buf@ + bytes@.take(i + 1 as int));
            i += 1;
        }
        assert(bytes@.take(bytes@.len() as int) =~= bytes@);
    }

    /// Pull the next complete document off the front of the buffer, if
    /// one is there; otherwise report whether more bytes can help.
    pub fn next_document(&mut self) -> (r: ChunkStep)
        ensures
            (first_document_end(old(self).buf@) matches ScanOutcome::EndsAt(e) ==> r matches
                ChunkStep::Document(d) && d@ == old(self).buf@.take(e) && final(self).buf@ == old(
                self,
            ).buf@.skip(e)),
            (first_document_end(old(self).buf@) is Incomplete ==> r is NeedMore && final(self).buf@
                == old(self).buf@),
            (first_document_end(old(self).buf@) is Corrupt ==> r is Corrupt && final(self).buf@
                == old(self).buf@),
    {
        let ghost s = self.buf@;
        let mut i: usize = 0;
        let mut depth: usize = 0;
        let mut in_str: bool = false;
        let mut esc: bool = false;
        let mut end: usize = 0;
        let mut found: bool = false;
        let mut corrupt: bool = false;
        while i < self.buf.len() && !found && !corrupt
            invariant
                self.buf@ == s,
                i <= s.len(),
                depth <= i,
                !in_str ==> !esc,
                !(found && corrupt),
                !found && !corrupt ==> first_document_end(s) == scan_from(
                    s,
                    i as int,
                    depth as nat,
                    in_str,
                    esc,
                ),
                found ==> 0 < end <= s.len() && first_document_end(s) == ScanOutcome::EndsAt(
                    end as int,
                ),
                corrupt ==> first_document_end(s) is Corrupt,
            decreases s.len() - i,
        {
            let b = self.buf[i];
            let ghost i0 = i as int;
            let ghost d0 = depth as nat;
            let ghost is0 = in_str;
            let ghost e0 = esc;
            proof {
                reveal_with_fuel(scan_from, 2);
                assert(s[i as int] == b);
            }
            if in_str {
                if esc {
                    esc = false;
                } else if b == 92 {
                    esc = true;
                } else if b == 34 {
                    in_str = false;
                }
            } else {
                if b == 34 && depth > 0 {
                    in_str = true;
                } else if b == 123 {
                    depth = depth + 1;
                } else if b == 125 {
                    if depth == 1 {
                        end = i + 1;
                        found = true;
                    } else if depth == 0 {
                        corrupt = true;
                    } else {
                        depth = depth - 1;
                    }
                }
            }
            i += 1;
            proof {
                reveal_with_fuel(scan_from, 2);
                if !found && !corrupt {
                    assert(scan_from(s, i0, d0, is0, e0) == scan_from(
                        s,
                        i as int,
                        depth as nat,
                        in_str,
                        esc,
                    ));
                }
            }
        }
        if corrupt {
            return ChunkStep::Corrupt;
        }
        if !found {
            return ChunkStep::NeedMore;
        }
        let mut doc: Vec<u8> = Vec::new();
        let mut j: usize = 0;
        while j < end
            invariant
                self.buf@ == s,
                end <= s.len(),
                j <= end,
                doc@ == s.take(end as int).take(j as int),
            decreases end - j,
        {
            doc.push(self.buf[j]);
            assert(doc@ =~= s.take(end as int).take(j + 1 as int));
            j += 1;
        }
        assert(doc@ =~= s.take(end as int));
        let mut rest: Vec<u8> = Vec::new();
        let mut k: usize = end;
        while k < self.buf.len()
            invariant
                self.buf@ == s,
                end <= k <= s.len(),
                rest@ == s.subrange(end as int, k as int),
            decreases s.len() - k,
        {
            rest.push(self.buf[k]);
            assert(rest@ =~= s.subrange(end as int, k + 1 as int));
            k += 1;
        }
        assert(rest@ =~= s.skip(end as int));
        self.buf = rest;
        ChunkStep::Document(doc)
    }
}

} // verus!
