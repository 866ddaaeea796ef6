//! Reading a request off the wire.

use vstd::prelude::*;
use vstd::string::*;
use vstd::utf8::*;

use crate::http::{Method, RequestRange};
use crate::text::{
    find, find_byte, has_prefix, hex_digit, hex_value, lemma_find_byte, lower, lower_matches,
    parse_decimal, parse_usize, slice_str, str_eq, COLON, CR, LF, MINUS, PERCENT, SPACE,
};

verus! {

/// A request as read off the wire.
#[derive(Debug)]
pub struct Request {
    pub method: Method,
    /// The path, with its percent escapes resolved.
    pub path: String,
    pub host: String,
    /// Empty when the request names no user agent.
    pub user_agent: String,
    /// The client's address as a proxy forwarded it, taken at face value.
    pub real_ip: Option<String>,
    pub range: Option<RequestRange>,
}

/// What a request holds, as text.
pub struct RequestView {
    pub method: Method,
    pub path: Seq<char>,
    pub host: Seq<char>,
    pub user_agent: Seq<char>,
    pub real_ip: Option<Seq<char>>,
    pub range: Option<RequestRange>,
}

pub open spec fn text_of(s: Option<String>) -> Option<Seq<char>> {
    match s {
        Some(t) => Some(t@),
        None => None,
    }
}

impl View for Request {
    type V = RequestView;

    open spec fn view(&self) -> RequestView {
        RequestView {
            method: self.method,
            path: self.path@,
            host: self.host@,
            user_agent: self.user_agent@,
            real_ip: text_of(self.real_ip),
            range: self.range,
        }
    }
}

/// The method that a request line names.
pub open spec fn method_of(t: Seq<char>) -> Option<Method> {
    if t == "GET"@ {
        Some(Method::Get)
    } else if t == "HEAD"@ {
        Some(Method::Head)
    } else {
        None
    }
}

impl Method {
    /// Reads a method name; only `GET` and `HEAD`, in upper case, are known.
    pub fn parse(source: &str) -> (r: Option<Method>)
        ensures
            r == method_of(source@),
    {
        if str_eq(source, "GET") {
            Some(Method::Get)
        } else if str_eq(source, "HEAD") {
            Some(Method::Head)
        } else {
            None
        }
    }

    pub open spec fn name_text(self) -> Seq<char> {
        match self {
            Method::Get => "GET"@,
            Method::Head => "HEAD"@,
        }
    }

    /// The method's name, as a request line writes it.
    pub fn as_str(self) -> (r: &'static str)
        ensures
            r@ == self.name_text(),
    {
        match self {
            Method::Get => "GET",
            Method::Head => "HEAD",
        }
    }
}

/// The range that a `Range` header value asks for: `bytes=<start>-<end>` where either
/// bound, but not both, may be left out.
pub open spec fn range_of(v: Seq<u8>) -> Option<RequestRange> {
    let p = encode_utf8("bytes="@);
    let dash = find_byte(v, MINUS, p.len() as int);
    if !p.is_prefix_of(v) || dash >= v.len() {
        None
    } else {
        let first = v.subrange(p.len() as int, dash);
        let last = v.subrange(dash + 1, v.len() as int);
        if first.len() == 0 && last.len() == 0 {
            None
        } else if first.len() == 0 {
            match parse_usize(last) {
                Some(n) => Some(RequestRange::Suffix(n)),
                None => None,
            }
        } else if last.len() == 0 {
            match parse_usize(first) {
                Some(n) => Some(RequestRange::From(n)),
                None => None,
            }
        } else {
            match (parse_usize(first), parse_usize(last)) {
                (Some(s), Some(e)) => Some(RequestRange::Full(s, e)),
                _ => None,
            }
        }
    }
}

impl RequestRange {
    /// Reads the value of a `Range` header; a value that does not fit the grammar
    /// asks for no range.
    pub fn parse(source: &str) -> (r: Option<RequestRange>)
        ensures
            r == range_of(source.spec_bytes()),
    {
        let v = source.as_bytes();
        let p = "bytes=".as_bytes();
        let n = v.len();
        assert(v@.subrange(0, n as int) =~= v@);
        if !has_prefix(v, 0, n, p) {
            return None;
        }
        let dash = find(v, MINUS, p.len());
        if dash >= n {
            return None;
        }
        let first_empty = dash == p.len();
        let last_empty = dash + 1 == n;
        if first_empty && last_empty {
            None
        } else if first_empty {
            match parse_decimal(v, dash + 1, n) {
                Some(e) => Some(RequestRange::Suffix(e)),
                None => None,
            }
        } else if last_empty {
            match parse_decimal(v, p.len(), dash) {
                Some(s) => Some(RequestRange::From(s)),
                None => None,
            }
        } else {
            let s = parse_decimal(v, p.len(), dash);
            let e = parse_decimal(v, dash + 1, n);
            match (s, e) {
                (Some(s), Some(e)) => Some(RequestRange::Full(s, e)),
                _ => None,
            }
        }
    }
}

/// The position of the line break that ends the line starting at `i`, or the end of `b`.
pub open spec fn line_end(b: Seq<u8>, i: int) -> int {
    find_byte(b, LF, i)
}

/// The end of the text of the line starting at `i`: a carriage return before the
/// line feed is not part of it.
pub open spec fn content_end(b: Seq<u8>, i: int) -> int {
    let e = line_end(b, i);
    if i < e < b.len() && b[e - 1] == CR {
        e - 1
    } else {
        e
    }
}

/// The position of the first `": "` that lies wholly in `b[i..e]`, or `e`.
pub open spec fn find_separator(b: Seq<u8>, i: int, e: int) -> int
    decreases e - i,
{
    if i + 1 >= e {
        e
    } else if b[i] == COLON && b[i + 1] == SPACE {
        i
    } else {
        find_separator(b, i + 1, e)
    }
}

/// The header fields that the server reads, as found so far.
pub struct HeaderFields {
    pub host: Option<Seq<char>>,
    pub range: Option<RequestRange>,
    pub real_ip: Option<Seq<char>>,
    pub user_agent: Seq<char>,
}

impl HeaderFields {
    pub open spec fn empty() -> HeaderFields {
        HeaderFields { host: None, range: None, real_ip: None, user_agent: Seq::empty() }
    }

    /// The fields after a header line `key: value`; the key is matched without regard
    /// to ASCII case, and a later line overrides an earlier one.
    pub open spec fn with(self, key: Seq<u8>, value: Seq<u8>) -> HeaderFields {
        let k = lower(key);
        if k == encode_utf8("host"@) {
            HeaderFields { host: Some(decode_utf8(value)), ..self }
        } else if k == encode_utf8("range"@) {
            HeaderFields { range: range_of(value), ..self }
        } else if k == encode_utf8("x-real-ip"@) {
            HeaderFields { real_ip: Some(decode_utf8(value)), ..self }
        } else if k == encode_utf8("user-agent"@) {
            HeaderFields { user_agent: decode_utf8(value), ..self }
        } else {
            self
        }
    }
}

/// Reads the header lines from position `i` up to the first empty line or the end of
/// `b`; a non-empty line without `": "` spoils the request.
pub open spec fn scan_headers(b: Seq<u8>, i: int, h: HeaderFields) -> Option<HeaderFields>
    decreases b.len() + 1 - i,
    via scan_headers_decreases
{
    if i < 0 || i >= b.len() {
        Some(h)
    } else {
        let e = content_end(b, i);
        let k = find_separator(b, i, e);
        if e == i {
            Some(h)
        } else if k >= e {
            None
        } else {
            scan_headers(b, line_end(b, i) + 1, h.with(b.subrange(i, k), b.subrange(k + 2, e)))
        }
    }
}

#[via_fn]
proof fn scan_headers_decreases(b: Seq<u8>, i: int, h: HeaderFields) {
    if 0 <= i < b.len() {
        lemma_find_byte(b, LF, i);
    }
}

/// The bytes that a path stands for once each `%XY` is replaced by the byte with the
/// hexadecimal value `XY`; a `%` without two hexadecimal digits after it spoils it.
pub open spec fn percent_decode(s: Seq<u8>) -> Option<Seq<u8>>
    decreases s.len(),
{
    if s.len() == 0 {
        Some(Seq::empty())
    } else if s[0] == PERCENT {
        if s.len() < 3 {
            None
        } else {
            match (hex_value(s[1]), hex_value(s[2]), percent_decode(s.subrange(3, s.len() as int))) {
                (Some(h), Some(l), Some(t)) => Some(seq![(h * 16 + l) as u8] + t),
                _ => None,
            }
        }
    } else {
        match percent_decode(s.subrange(1, s.len() as int)) {
            Some(t) => Some(seq![s[0]] + t),
            None => None,
        }
    }
}

/// A request read from its bytes: a request line `<METHOD> <PATH> HTTP/1.<minor>`, then
/// header lines up to an empty one. The method must be known, a `Host` header must be
/// there, and the decoded path must be UTF-8.
pub open spec fn parse_request(b: Seq<u8>) -> Option<RequestView> {
    let head_end = content_end(b, 0);
    let sp1 = find_byte(b, SPACE, 0);
    let sp2 = find_byte(b, SPACE, sp1 + 1);
    if b.len() == 0 || sp1 >= head_end || sp2 >= head_end {
        None
    } else if !encode_utf8("HTTP/1."@).is_prefix_of(b.subrange(sp2 + 1, head_end)) {
        None
    } else {
        match (
            method_of(decode_utf8(b.subrange(0, sp1))),
            scan_headers(b, line_end(b, 0) + 1, HeaderFields::empty()),
            percent_decode(b.subrange(sp1 + 1, sp2)),
        ) {
            (Some(method), Some(h), Some(p)) => match h.host {
                Some(host) => if valid_utf8(p) {
                    Some(
                        RequestView {
                            method,
                            path: decode_utf8(p),
                            host,
                            user_agent: h.user_agent,
                            real_ip: h.real_ip,
                            range: h.range,
                        },
                    )
                } else {
                    None
                },
                None => None,
            },
            _ => None,
        }
    }
}

/// Relies on `String::from_utf8`: it accepts exactly the bytes that are valid UTF-8,
/// and the text then holds the characters that those bytes encode.
#[verifier::external_body]
fn utf8_text(bytes: Vec<u8>) -> (r: Option<String>)
    ensures
        r is Some <==> valid_utf8(bytes@),
        r matches Some(t) ==> t@ == decode_utf8(bytes@),
{
    String::from_utf8(bytes).ok()
}

pub open spec fn prefixed(p: Seq<u8>, o: Option<Seq<u8>>) -> Option<Seq<u8>> {
    match o {
        Some(t) => Some(p + t),
        None => None,
    }
}

/// Resolves the percent escapes of `b[from..to]`.
fn decode_percent(b: &[u8], from: usize, to: usize) -> (r: Option<Vec<u8>>)
    requires
        from <= to <= b@.len(),
    ensures
        match r {
            Some(v) => percent_decode(b@.subrange(from as int, to as int)) == Some(v@),
            None => percent_decode(b@.subrange(from as int, to as int)) is None,
        },
{
    let mut out: Vec<u8> = Vec::new();
    let mut i = from;
    assert(out@ + b@.subrange(from as int, to as int) =~= b@.subrange(from as int, to as int));
    while i < to
        invariant
            from <= i <= to <= b@.len(),
            percent_decode(b@.subrange(from as int, to as int)) == prefixed(
                out@,
                percent_decode(b@.subrange(i as int, to as int)),
            ),
        decreases to - i,
    {
        let ghost rest = b@.subrange(i as int, to as int);
        if b[i] == PERCENT {
            if to - i < 3 {
                return None;
            }
            let hi = hex_digit(b[i + 1]);
            let lo = hex_digit(b[i + 2]);
            assert(rest[1] == b@[i + 1] && rest[2] == b@[i + 2]);
            assert(rest.subrange(3, rest.len() as int) =~= b@.subrange(i + 3, to as int));
            match (hi, lo) {
                (Some(h), Some(l)) => {
                    let ghost old_out = out@;
                    out.push(h * 16 + l);
                    i += 3;
                    proof {
                        match percent_decode(b@.subrange(i as int, to as int)) {
                            Some(t) => {
                                assert(old_out + (seq![(h * 16 + l) as u8] + t) =~= out@ + t);
                            },
                            None => {},
                        }
                    }
                },
                _ => {
                    return None;
                },
            }
        } else {
            let ghost old_out = out@;
            assert(rest.subrange(1, rest.len() as int) =~= b@.subrange(i + 1, to as int));
            out.push(b[i]);
            i += 1;
            proof {
                match percent_decode(b@.subrange(i as int, to as int)) {
                    Some(t) => {
                        assert(old_out + (seq![rest[0]] + t) =~= out@ + t);
                    },
                    None => {},
                }
            }
        }
    }
    assert(out@ + Seq::<u8>::empty() =~= out@);
    Some(out)
}

/// The position of the first `": "` in `b[i..e]`, or `e`.
fn separator(b: &[u8], i: usize, e: usize) -> (r: usize)
    requires
        i <= e <= b@.len(),
    ensures
        r == find_separator(b@, i as int, e as int),
        i <= r <= e,
        r < e ==> r + 1 < e && b@[r as int] == COLON && b@[r + 1] == SPACE,
{
    let mut k = i;
    while e - k > 1
        invariant
            i <= k <= e <= b@.len(),
            find_separator(b@, k as int, e as int) == find_separator(b@, i as int, e as int),
        decreases e - k,
    {
        if b[k] == COLON && b[k + 1] == SPACE {
            return k;
        }
        k += 1;
    }
    e
}

proof fn lemma_scan_at_end(b: Seq<u8>, i: int, h: HeaderFields)
    requires
        i >= b.len(),
    ensures
        scan_headers(b, i, h) == Some(h),
{
}

impl Request {
    /// Reads a request from its text. Gives `None` for a malformed request line, an
    /// unknown method, a header line without `": "`, a missing `Host` header, or a path
    /// whose escapes are malformed or do not decode to UTF-8.
    pub fn parse(source: &str) -> (r: Option<Request>)
        ensures
            match r {
                Some(q) => parse_request(source.spec_bytes()) == Some(q@),
                None => parse_request(source.spec_bytes()) is None,
            },
    {
        let b = source.as_bytes();
        let ghost bs = b@;
        let n = b.len();
        if n == 0 {
            return None;
        }
        let e0 = find(b, LF, 0);
        let head_end = if 0 < e0 && e0 < n && b[e0 - 1] == CR {
            e0 - 1
        } else {
            e0
        };
        let sp1 = find(b, SPACE, 0);
        if sp1 >= head_end {
            return None;
        }
        proof {
            lemma_find_byte(bs, SPACE, 0);
        }
        let method = match Method::parse(slice_str(source, 0, sp1)) {
            Some(m) => m,
            None => {
                return None;
            },
        };
        let sp2 = find(b, SPACE, sp1 + 1);
        if sp2 >= head_end {
            return None;
        }
        if !has_prefix(b, sp2 + 1, head_end, "HTTP/1.".as_bytes()) {
            return None;
        }
        let mut host: Option<String> = None;
        let mut range: Option<RequestRange> = None;
        let mut real_ip: Option<String> = None;
        let mut user_agent = String::new();
        let ghost mut h = HeaderFields::empty();
        let mut i = if e0 < n {
            e0 + 1
        } else {
            n
        };
        proof {
            if e0 >= n {
                lemma_scan_at_end(bs, n as int, h);
                lemma_scan_at_end(bs, n + 1, h);
            }
        }
        while i < n
            invariant
                b@ == bs,
                bs == source.spec_bytes(),
                n == bs.len(),
                i <= n,
                scan_headers(bs, i as int, h) == scan_headers(bs, line_end(bs, 0) + 1, HeaderFields::empty()),
                text_of(host) == h.host,
                range == h.range,
                text_of(real_ip) == h.real_ip,
                user_agent@ == h.user_agent,
            ensures
                scan_headers(bs, line_end(bs, 0) + 1, HeaderFields::empty()) == Some(h),
            decreases n - i,
        {
            let e = find(b, LF, i);
            proof {
                lemma_find_byte(bs, LF, i as int);
            }
            let end = if i < e && e < n && b[e - 1] == CR {
                e - 1
            } else {
                e
            };
            if end == i {
                break;
            }
            let k = separator(b, i, end);
            if k >= end {
                return None;
            }
            let ghost key = bs.subrange(i as int, k as int);
            let ghost value = bs.subrange(k + 2, end as int);
            if lower_matches(b, i, k, "host".as_bytes()) {
                host = Some(slice_str(source, k + 2, end).to_owned());
            } else if lower_matches(b, i, k, "range".as_bytes()) {
                range = RequestRange::parse(slice_str(source, k + 2, end));
            } else if lower_matches(b, i, k, "x-real-ip".as_bytes()) {
                real_ip = Some(slice_str(source, k + 2, end).to_owned());
            } else if lower_matches(b, i, k, "user-agent".as_bytes()) {
                user_agent = slice_str(source, k + 2, end).to_owned();
            }
            proof {
                h = h.with(key, value);
            }
            i = if e < n {
                e + 1
            } else {
                n
            };
            proof {
                if e >= n {
                    lemma_scan_at_end(bs, n as int, h);
                    lemma_scan_at_end(bs, n + 1, h);
                }
            }
        }
        let host = match host {
            Some(t) => t,
            None => {
                return None;
            },
        };
        let decoded = match decode_percent(b, sp1 + 1, sp2) {
            Some(v) => v,
            None => {
                return None;
            },
        };
        let path = match utf8_text(decoded) {
            Some(t) => t,
            None => {
                return None;
            },
        };
        Some(Request { method, path, host, user_agent, real_ip, range })
    }
}

} // verus!
