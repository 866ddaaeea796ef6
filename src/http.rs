//! Responses and their wire format, and the types that requests carry.

use vstd::prelude::*;
use vstd::string::*;
use vstd::utf8::*;

use crate::text::{decimal, push_decimal, push_bytes, push_text};

verus! {

/// A request method that the server answers.
#[derive(Debug, Clone, Copy, PartialEq, Eq, Structural)]
pub enum Method {
    Get,
    Head,
}

/// The byte range that a client asks for in its `Range` header.
#[derive(Debug, Clone, Copy, PartialEq, Eq, Structural)]
pub enum RequestRange {
    /// From an offset to the end of the resource.
    From(usize),
    /// From a first to a last offset, both included.
    Full(usize, usize),
    /// The last so many bytes of the resource.
    Suffix(usize),
}

/// The status of a response.
#[derive(Debug, Clone, Copy, PartialEq, Eq, Structural)]
pub enum Status {
    Success,
    PartialContent,
    BadRequest,
    NotFound,
}

/// The payload of one response: its type, its bytes, and, for a slice of a larger
/// resource, the slice's first and last offset and the resource's size.
#[derive(Debug, Clone)]
pub struct Content {
    pub mime_type: &'static str,
    pub range: Option<(usize, usize, usize)>,
    pub bytes: Vec<u8>,
}

/// A response: a status and, but for a bare status, a payload.
#[derive(Debug)]
pub struct Response {
    pub status: Status,
    pub content: Option<Content>,
}

impl Status {
    pub open spec fn spec_code(self) -> u16 {
        match self {
            Status::Success => 200,
            Status::PartialContent => 206,
            Status::BadRequest => 400,
            Status::NotFound => 404,
        }
    }

    pub open spec fn reason(self) -> Seq<char> {
        match self {
            Status::Success => "OK"@,
            Status::PartialContent => "PARTIAL CONTENT"@,
            Status::BadRequest => "BAD REQUEST"@,
            Status::NotFound => "NOT FOUND"@,
        }
    }

    /// The status line of a response with this status, without its line break.
    pub open spec fn status_line(self) -> Seq<char> {
        "HTTP/1.1 "@ + decimal(self.spec_code() as nat) + " "@ + self.reason()
    }

    /// The status line, as in `HTTP/1.1 404 NOT FOUND`.
    pub fn header(self) -> (r: String)
        ensures
            r@ == self.status_line(),
    {
        let mut line = String::from_str("HTTP/1.1 ");
        push_decimal(&mut line, self.code() as u64);
        line.append(" ");
        line.append(self.name());
        line
    }

    /// The numeric status code.
    pub fn code(self) -> (r: u16)
        ensures
            r == self.spec_code(),
    {
        match self {
            Status::Success => 200,
            Status::PartialContent => 206,
            Status::BadRequest => 400,
            Status::NotFound => 404,
        }
    }

    /// The reason phrase.
    pub fn name(self) -> (r: &'static str)
        ensures
            r@ == self.reason(),
    {
        match self {
            Status::Success => "OK",
            Status::PartialContent => "PARTIAL CONTENT",
            Status::BadRequest => "BAD REQUEST",
            Status::NotFound => "NOT FOUND",
        }
    }
}

/// Copies the UTF-8 encoding of `text` into a new vector.
fn text_bytes(text: &String) -> (r: Vec<u8>)
    ensures
        r@ == encode_utf8(text@),
{
    let mut out: Vec<u8> = Vec::new();
    push_text(&mut out, text.as_str());
    out
}

impl Content {
    /// A slice of a resource: its last offset is below the resource's size, and
    /// the slice holds exactly the bytes from its first to its last offset.
    pub open spec fn wf(self) -> bool {
        match self.range {
            Some((start, end, total)) => start <= end < total && end - start + 1 == self.bytes@.len(),
            None => true,
        }
    }

    /// An HTML page.
    pub fn html(text: String) -> (r: Content)
        ensures
            r.mime_type@ == "text/html"@,
            r.range is None,
            r.bytes@ == encode_utf8(text@),
    {
        Content { mime_type: "text/html", range: None, bytes: text_bytes(&text) }
    }

    /// Plain text.
    pub fn text(text: String) -> (r: Content)
        ensures
            r.mime_type@ == "text/plain"@,
            r.range is None,
            r.bytes@ == encode_utf8(text@),
    {
        Content { mime_type: "text/plain", range: None, bytes: text_bytes(&text) }
    }
}

/// The `Content-Length` field for a body of `n` bytes.
pub open spec fn length_field(n: nat) -> Seq<char> {
    "Content-Length: "@ + decimal(n) + "\r\n"@
}

/// The `Content-Range` field for a slice, if there is one.
pub open spec fn range_field(range: Option<(usize, usize, usize)>) -> Seq<char> {
    match range {
        Some((start, end, total)) => "Content-Range: bytes "@ + decimal(start as nat) + "-"@
            + decimal(end as nat) + "/"@ + decimal(total as nat) + "\r\n"@,
        None => Seq::empty(),
    }
}

impl Response {
    /// The status that goes on the wire: a slice is always partial content.
    pub open spec fn sent_status(self) -> Status {
        match self.content {
            Some(c) => if c.range is Some {
                Status::PartialContent
            } else {
                self.status
            },
            None => self.status,
        }
    }

    /// The head up to the `Content-Length` field: the status line and the type.
    pub open spec fn lead(self) -> Seq<char> {
        match self.content {
            Some(c) => self.sent_status().status_line() + "\r\nContent-Type: "@ + c.mime_type@
                + "\r\n"@,
            None => self.status.status_line() + "\r\n"@,
        }
    }

    /// The head after the `Content-Length` field: the range, if any, and the blank line.
    pub open spec fn tail(self) -> Seq<char> {
        match self.content {
            Some(c) => range_field(c.range) + "\r\n"@,
            None => "\r\n"@,
        }
    }

    /// The payload, empty for a bare status.
    pub open spec fn body(self) -> Seq<u8> {
        match self.content {
            Some(c) => c.bytes@,
            None => Seq::empty(),
        }
    }

    /// The head of the message, up to and including the blank line.
    pub open spec fn head_text(self) -> Seq<char> {
        match self.content {
            Some(c) => self.lead() + length_field(c.bytes@.len()) + self.tail(),
            None => self.lead() + self.tail(),
        }
    }

    /// The bytes on the wire; the body is left out for a `HEAD` request.
    pub open spec fn message(self, head_only: bool) -> Seq<u8> {
        encode_utf8(self.head_text()) + if head_only {
            Seq::empty()
        } else {
            self.body()
        }
    }

    /// A response with no payload.
    pub fn new(status: Status) -> (r: Response)
        ensures
            r.status == status,
            r.content is None,
    {
        Response { status, content: None }
    }

    /// This response with `content` as its payload.
    pub fn with_content(self, content: Content) -> (r: Response)
        ensures
            r.status == self.status,
            r.content == Some(content),
    {
        Response { status: self.status, content: Some(content) }
    }

    /// Serializes the response; with `head_only` the body is left out.
    pub fn format(self, head_only: bool) -> (r: Vec<u8>)
        ensures
            r@ == self.message(head_only),
    {
        let ghost this = self;
        let mut head = String::new();
        match self.content {
            Some(content) => {
                let status = if content.range.is_some() {
                    Status::PartialContent
                } else {
                    self.status
                };
                head.append(status.header().as_str());
                head.append("\r\nContent-Type: ");
                head.append(content.mime_type);
                head.append("\r\n");
                head.append("Content-Length: ");
                push_decimal(&mut head, content.bytes.len() as u64);
                head.append("\r\n");
                if let Some((start, end, total)) = content.range {
                    head.append("Content-Range: bytes ");
                    push_decimal(&mut head, start as u64);
                    head.append("-");
                    push_decimal(&mut head, end as u64);
                    head.append("/");
                    push_decimal(&mut head, total as u64);
                    head.append("\r\n");
                }
                head.append("\r\n");
                assert(head@ =~= this.head_text());
                let mut out = text_bytes(&head);
                if !head_only {
                    push_bytes(&mut out, content.bytes.as_slice());
                }
                assert(out@ =~= this.message(head_only));
                out
            },
            None => {
                head.append(self.status.header().as_str());
                head.append("\r\n");
                head.append("\r\n");
                assert(head@ =~= this.head_text());
                let out = text_bytes(&head);
                assert(out@ =~= this.message(head_only));
                out
            },
        }
    }
}

/// Every response with a payload carries a `Content-Length` field that gives the
/// number of bytes of the body that follows its head.
pub proof fn lemma_length_field_counts_body(r: Response)
    requires
        r.content is Some,
    ensures
        r.head_text() == r.lead() + length_field(r.body().len()) + r.tail(),
        r.message(false) == encode_utf8(r.head_text()) + r.body(),
{
}

/// The message for a `HEAD` request is the message for `GET` with the body left out:
/// the same head, and nothing after it.
pub proof fn lemma_head_is_get_without_body(r: Response)
    ensures
        r.message(false) == r.message(true) + r.body(),
        r.message(true) == encode_utf8(r.head_text()),
{
    assert(r.message(true) =~= encode_utf8(r.head_text()));
    assert(r.message(false) =~= r.message(true) + r.body());
}

} // verus!
