//! The decisions of the connection handler: when a request is complete, what to
//! reply, and when to close.

use vstd::prelude::*;
use vstd::string::*;
use vstd::utf8::*;

use crate::http::{length_field, Content, Method, Response, Status};
use crate::request::Request;
use crate::text::{push_bytes, CR, LF};

verus! {

/// The most bytes that the handler buffers while it waits for the end of a request.
pub const MAX_REQUEST_SIZE: usize = 1024 * 4;

/// What the connection handler does next.
#[derive(Debug, Clone, Copy, PartialEq, Eq, Structural)]
pub enum ReadStep {
    /// Read more of the request.
    Wait,
    /// The buffer holds a whole request: answer it.
    Dispatch,
    /// Give up on the connection.
    Close,
}

/// Whether a buffer ends with the blank line that closes a request head.
pub open spec fn request_complete(b: Seq<u8>) -> bool {
    seq![CR, LF, CR, LF].is_suffix_of(b) || seq![LF, LF].is_suffix_of(b)
}

/// The step after a read that left `b` in the buffer.
pub open spec fn step_for(b: Seq<u8>) -> ReadStep {
    if b.len() > MAX_REQUEST_SIZE {
        ReadStep::Close
    } else if request_complete(b) {
        ReadStep::Dispatch
    } else {
        ReadStep::Wait
    }
}

fn ends_with(b: &Vec<u8>, tail: &[u8]) -> (r: bool)
    ensures
        r == tail@.is_suffix_of(b@),
{
    if tail.len() > b.len() {
        return false;
    }
    let off = b.len() - tail.len();
    let mut i: usize = 0;
    while i < tail.len()
        invariant
            off + tail@.len() == b@.len(),
            b@.len() <= usize::MAX,
            i <= tail@.len(),
            forall|k: int| 0 <= k < i ==> tail@[k] == b@[off + k],
        decreases tail@.len() - i,
    {
        if tail[i] != b[off + i] {
            assert(b@.subrange(off as int, b@.len() as int)[i as int] != tail@[i as int]);
            return false;
        }
        i += 1;
    }
    assert(b@.subrange(off as int, b@.len() as int) =~= tail@);
    true
}

/// Takes the bytes of one read into the buffer and decides what comes next. A read of
/// no bytes means that the client closed the connection.
pub fn after_read(buffer: &mut Vec<u8>, received: &[u8]) -> (r: ReadStep)
    ensures
        received@.len() == 0 ==> r == ReadStep::Close && final(buffer)@ == old(buffer)@,
        received@.len() > 0 ==> final(buffer)@ == old(buffer)@ + received@ && r == step_for(
            final(buffer)@,
        ),
{
    if received.len() == 0 {
        return ReadStep::Close;
    }
    push_bytes(buffer, received);
    if buffer.len() > MAX_REQUEST_SIZE {
        ReadStep::Close
    } else if ends_with(buffer, [CR, LF, CR, LF].as_slice()) || ends_with(buffer, [LF, LF].as_slice()) {
        ReadStep::Dispatch
    } else {
        ReadStep::Wait
    }
}

/// The reply to a request that could not be read: a bare `400`, after which the
/// connection closes.
pub fn bad_request() -> (r: (Vec<u8>, bool))
    ensures
        r.0@ == (Response { status: Status::BadRequest, content: None }).message(false),
        r.0@ == encode_utf8(Status::BadRequest.status_line() + "\r\n"@ + "\r\n"@),
        r.1,
{
    (Response::new(Status::BadRequest).format(false), true)
}

/// The text of the page for a path that names nothing.
pub open spec fn not_found_text(path: Seq<char>) -> Seq<char> {
    "404 NOT FOUND - '"@ + path + "'"@
}

/// The message that says that `path` names nothing; the body is left out for `HEAD`.
pub open spec fn not_found_message(path: Seq<char>, head_only: bool) -> Seq<u8> {
    let body = encode_utf8(not_found_text(path));
    encode_utf8(
        Status::NotFound.status_line() + "\r\nContent-Type: "@ + "text/plain"@ + "\r\n"@
            + length_field(body.len()) + "\r\n"@,
    ) + if head_only {
        Seq::empty()
    } else {
        body
    }
}

/// The reply to a request that was read, given what the lookup of its path found: the
/// content and whether it reaches the end of the file, or nothing. Also tells whether
/// the connection closes after the reply: when nothing was found, or when the content
/// reaches the end of the file; it stays open only while more of the file remains to
/// be asked for.
pub fn respond(request: &Request, found: Option<(Content, bool)>) -> (r: (Vec<u8>, bool))
    ensures
        match found {
            Some((c, end)) => {
                &&& r.0@ == (Response { status: Status::Success, content: Some(c) }).message(
                    request.method == Method::Head,
                )
                &&& r.1 == end
            },
            None => {
                &&& r.0@ == not_found_message(request.path@, request.method == Method::Head)
                &&& r.1
            },
        },
{
    let head_only = request.method == Method::Head;
    match found {
        Some((content, end)) => {
            let bytes = Response::new(Status::Success).with_content(content).format(head_only);
            (bytes, end)
        },
        None => {
            let mut text = String::from_str("404 NOT FOUND - '");
            text.append(request.path.as_str());
            text.append("'");
            let content = Content::text(text);
            let response = Response::new(Status::NotFound).with_content(content);
            let ghost r = response;
            assert(r.head_text() =~= Status::NotFound.status_line() + "\r\nContent-Type: "@
                + "text/plain"@ + "\r\n"@ + length_field(r.body().len()) + "\r\n"@);
            let bytes = response.format(head_only);
            assert(bytes@ =~= not_found_message(request.path@, head_only));
            (bytes, true)
        },
    }
}

/// The reply for a path that names nothing gives in its `Content-Length` field the
/// length of the body that follows its head, and for `HEAD` it is the same head with
/// the body left out.
pub proof fn lemma_not_found_length(path: Seq<char>)
    ensures
        ({
            let body = encode_utf8(not_found_text(path));
            &&& not_found_message(path, true) == encode_utf8(
                Status::NotFound.status_line() + "\r\nContent-Type: "@ + "text/plain"@ + "\r\n"@
                    + length_field(body.len()) + "\r\n"@,
            )
            &&& not_found_message(path, false) == not_found_message(path, true) + body
        }),
{
    assert(not_found_message(path, false) =~= not_found_message(path, true) + encode_utf8(
        not_found_text(path),
    ));
    assert(not_found_message(path, true) =~= encode_utf8(
        Status::NotFound.status_line() + "\r\nContent-Type: "@ + "text/plain"@ + "\r\n"@
            + length_field(encode_utf8(not_found_text(path)).len()) + "\r\n"@,
    ));
}

} // verus!
