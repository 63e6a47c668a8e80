//! Reading the body of a response, up to a size.

use vstd::prelude::*;

verus! {

pub const OVERSIZE: &'static str = "body over the size limit";

/// Whether a status code tells of success.
pub open spec fn is_success(code: u16) -> bool {
    200 <= code <= 299
}

/// The error with which a response is turned down before its body is read.
pub open spec fn refusal(
    code: u16,
    status: Seq<char>,
    length: Option<u64>,
    max: nat,
) -> Option<Seq<char>> {
    if !is_success(code) {
        Some("HTTP "@ + status)
    } else {
        match length {
            Some(n) if n > max => Some(OVERSIZE@),
            _ => None,
        }
    }
}

/// The bytes of a body so far, never more than a limit.
#[derive(Debug)]
pub struct Body {
    bytes: Vec<u8>,
    max: usize,
}

impl View for Body {
    type V = Seq<u8>;

    closed spec fn view(&self) -> Seq<u8> {
        self.bytes@
    }
}

impl Body {
    pub closed spec fn limit(&self) -> nat {
        self.max as nat
    }

    pub open spec fn wf(&self) -> bool {
        self@.len() <= self.limit()
    }

    /// Starts on a response with a status code, the text of its status and, where it
    /// declares one, the length of its body.
    pub fn begin(code: u16, status: &str, length: Option<u64>, max: usize) -> (r: Result<
        Body,
        String,
    >)
        ensures
            r is Ok <==> refusal(code, status@, length, max as nat) is None,
            r matches Ok(body) ==> body@ == Seq::<u8>::empty() && body.limit() == max && body.wf(),
            r matches Err(e) ==> refusal(code, status@, length, max as nat) == Some(e@),
    {
        if code < 200 || code > 299 {
            let mut e = "HTTP ".to_owned();
            e.append(status);
            return Err(e);
        }
        if let Some(n) = length {
            if n > max as u64 {
                return Err(OVERSIZE.to_owned());
            }
        }
        Ok(Body { bytes: Vec::new(), max })
    }

    /// Takes in the next bytes, if they still fit.
    pub fn take(&mut self, chunk: &[u8]) -> (r: Result<(), String>)
        requires
            old(self).wf(),
        ensures
            final(self).wf(),
            final(self).limit() == old(self).limit(),
            r is Ok <==> old(self)@.len() + chunk@.len() <= old(self).limit(),
            r is Ok ==> final(self)@ == old(self)@ + chunk@,
            r matches Err(e) ==> e@ == OVERSIZE@ && final(self)@ == old(self)@,
    {
        if chunk.len() > self.max - self.bytes.len() {
            return Err(OVERSIZE.to_owned());
        }
        self.bytes.extend_from_slice(chunk);
        assert(self.bytes@ =~= old(self).bytes@ + chunk@);
        Ok(())
    }

    pub fn finish(self) -> (r: Vec<u8>)
        ensures
            r@ == self@,
    {
        self.bytes
    }
}

/// All the chunks in a row.
pub open spec fn concatenated(chunks: Seq<Seq<u8>>) -> Seq<u8>
    decreases chunks.len(),
{
    if chunks.len() == 0 {
        Seq::empty()
    } else {
        concatenated(chunks.drop_last()) + chunks.last()
    }
}

/// What reading the chunks one after another gives: the bytes, or nothing from the
/// first chunk on that does not fit.
pub open spec fn taken(chunks: Seq<Seq<u8>>, max: nat) -> Option<Seq<u8>>
    decreases chunks.len(),
{
    if chunks.len() == 0 {
        Some(Seq::empty())
    } else {
        match taken(chunks.drop_last(), max) {
            Some(bytes) if bytes.len() + chunks.last().len() <= max => Some(bytes + chunks.last()),
            _ => None,
        }
    }
}

/// A body is read to its end exactly when all of it fits, and then it is the chunks
/// in a row.
pub proof fn body_is_whole_or_refused(chunks: Seq<Seq<u8>>, max: nat)
    ensures
        taken(chunks, max) == if concatenated(chunks).len() <= max {
            Some(concatenated(chunks))
        } else {
            None
        },
    decreases chunks.len(),
{
    if chunks.len() > 0 {
        body_is_whole_or_refused(chunks.drop_last(), max);
    }
}

/// A response is turned down where its code is not from 200 to 299, with its status, or
/// where the length that it declares is over the limit; any other is read.
pub proof fn responses_are_turned_down_for_code_or_length(
    code: u16,
    status: Seq<char>,
    length: Option<u64>,
    max: nat,
)
    ensures
        code < 200 || code > 299 ==> refusal(code, status, length, max) == Some("HTTP "@ + status),
        200 <= code <= 299 && length is Some && length->0 > max ==> refusal(
            code,
            status,
            length,
            max,
        ) == Some("body over the size limit"@),
        200 <= code <= 299 && (length is Some ==> length->0 <= max) ==> refusal(
            code,
            status,
            length,
            max,
        ) is None,
{
}

} // verus!
