//! An HTTP response and the text that is sent for it.

use crate::headers::{Field, Headers};
use crate::text::{append_decimal, decimal_text, str_eq};
use vstd::prelude::*;
use vstd::std_specs::convert::FromSpecImpl;
use vstd::string::*;
use vstd::utf8::encode_utf8;

verus! {

/// `std::io::Error` of the standard library, the error of a stream. The
/// library hands such a value on and never looks into it.
#[verifier::external_type_specification]
#[verifier::external_body]
pub struct ExIoError(std::io::Error);

/// A response: status line, header fields and body.
#[derive(Debug, PartialEq, Clone)]
pub struct HttpResponse<'a> {
    pub version: &'a str,
    pub status_code: &'a str,
    pub status_text: &'a str,
    pub headers: Option<Headers>,
    pub body: Option<String>,
}

/// The reason phrase that goes with a status code; an unknown code is
/// reported as not found.
pub open spec fn status_text_of(code: Seq<char>) -> Seq<char> {
    if code == "200"@ {
        "OK"@
    } else if code == "400"@ {
        "Bad Request"@
    } else if code == "404"@ {
        "Not Found"@
    } else if code == "500"@ {
        "Internal Server Error"@
    } else {
        "Not Found"@
    }
}

/// The header lines of `fields`: for each field its name, a colon, its
/// value and a line end.
pub open spec fn fields_text(fields: Seq<Field>) -> Seq<char>
    decreases fields.len(),
{
    if fields.len() == 0 {
        Seq::empty()
    } else {
        fields_text(fields.drop_last()) + fields.last().0 + ":"@ + fields.last().1 + "\r\n"@
    }
}

/// The fields of optional headers: none if there are no headers.
pub open spec fn fields_of(headers: Option<Headers>) -> Seq<Field> {
    match headers {
        Some(h) => h.fields(),
        None => Seq::empty(),
    }
}

/// The characters of an optional body: none if there is no body.
pub open spec fn body_of(body: Option<String>) -> Seq<char> {
    match body {
        Some(b) => b@,
        None => Seq::empty(),
    }
}

/// The text that is sent for a response: the status line, the header lines,
/// the length of the body in bytes, an empty line and the body.
pub open spec fn response_text(r: HttpResponse) -> Seq<char> {
    r.version@ + " "@ + r.status_code@ + " "@ + r.status_text@ + "\r\n"@ + fields_text(
        fields_of(r.headers),
    ) + "Content-Length: "@ + decimal_text(encode_utf8(body_of(r.body)).len()) + "\r\n\r\n"@
        + body_of(r.body)
}

/// `std::io::Write::write_fmt` of the standard library, through `write!`:
/// writes `text` to `stream`. What the stream then holds and whether the
/// write succeeds depend on the stream; the contract claims nothing.
#[verifier::external_body]
fn write_text<W: std::io::Write>(stream: &mut W, text: &str) -> (r: Result<(), std::io::Error>) {
    write!(stream, "{}", text)
}

impl<'a> Default for HttpResponse<'a> {
    /// The response `200 OK` of HTTP/1.1, without headers and without body.
    fn default() -> (r: Self)
        ensures
            r.version@ == "HTTP/1.1"@,
            r.status_code@ == "200"@,
            r.status_text@ == "OK"@,
            r.headers is None,
            r.body is None,
    {
        Self { version: "HTTP/1.1", status_code: "200", status_text: "OK", headers: None, body: None }
    }
}

impl<'a> HttpResponse<'a> {
    /// The headers, if there are any, are well formed.
    pub open spec fn wf(&self) -> bool {
        self.headers matches Some(h) ==> h.wf()
    }

    /// A response of HTTP/1.1 with the status `status_code` and its reason
    /// phrase, with `headers`, or with the content type `text/html` as only
    /// header where none are given, and with `body`.
    pub fn new(status_code: &'a str, headers: Option<Headers>, body: Option<String>) -> (r: Self)
        requires
            headers matches Some(h) ==> h.wf(),
        ensures
            r.wf(),
            r.version@ == "HTTP/1.1"@,
            r.status_code@ == status_code@,
            r.status_text@ == status_text_of(status_code@),
            headers is Some ==> r.headers == headers,
            headers is None ==> {
                &&& r.headers matches Some(h)
                &&& h@ == Map::<Seq<char>, Seq<char>>::empty().insert(
                    "Content-Type"@,
                    "text/html"@,
                )
            },
            r.body == body,
    {
        let headers = match headers {
            Some(h) => Some(h),
            None => {
                let mut h = Headers::new();
                h.insert("Content-Type", "text/html");
                Some(h)
            },
        };
        let status_text = if str_eq(status_code, "200") {
            "OK"
        } else if str_eq(status_code, "400") {
            "Bad Request"
        } else if str_eq(status_code, "404") {
            "Not Found"
        } else if str_eq(status_code, "500") {
            "Internal Server Error"
        } else {
            "Not Found"
        };
        HttpResponse { version: "HTTP/1.1", status_code, status_text, headers, body }
    }

    /// Sends the text of the response to `write_stream`. A failure of the
    /// stream is not reported.
    pub fn send_response<W: std::io::Write>(&self, write_stream: &mut W) -> (r: Result<
        (),
        std::io::Error,
    >)
        ensures
            r is Ok,
    {
        let response_string = self.to_text();
        let _ = write_text(write_stream, response_string.as_str());
        Ok(())
    }

    /// The text that is sent for the response.
    pub fn to_text(&self) -> (text: String)
        ensures
            text@ == response_text(*self),
    {
        let mut text = String::new();
        text.append(self.version);
        text.append(" ");
        text.append(self.status_code);
        text.append(" ");
        text.append(self.status_text);
        text.append("\r\n");
        let header_string = self.headers();
        text.append(header_string.as_str());
        text.append("Content-Length: ");
        append_decimal(&mut text, self.length());
        text.append("\r\n\r\n");
        text.append(self.body());
        assert(text@ =~= response_text(*self));
        text
    }

    /// The header lines of the response.
    pub fn headers(&self) -> (header_string: String)
        ensures
            header_string@ == fields_text(fields_of(self.headers)),
    {
        let mut header_string = String::new();
        match &self.headers {
            Some(h) => {
                let n = h.len();
                let mut i: usize = 0;
                while i < n
                    invariant
                        i <= n,
                        n == h.fields().len(),
                        header_string@ == fields_text(h.fields().subrange(0, i as int)),
                    decreases n - i,
                {
                    proof {
                        let next = h.fields().subrange(0, i + 1);
                        assert(next.drop_last() =~= h.fields().subrange(0, i as int));
                        assert(next.last() == h.fields()[i as int]);
                    }
                    header_string.append(h.name_at(i));
                    header_string.append(":");
                    header_string.append(h.value_at(i));
                    header_string.append("\r\n");
                    i += 1;
                }
                assert(h.fields().subrange(0, n as int) =~= h.fields());
            },
            None => {},
        }
        header_string
    }

    /// The length of the body in bytes.
    pub fn length(&self) -> (n: usize)
        ensures
            n == encode_utf8(body_of(self.body)).len(),
    {
        match &self.body {
            Some(body) => body.as_str().as_bytes().len(),
            None => {
                assert(encode_utf8(Seq::<char>::empty()).len() == 0);
                0
            },
        }
    }

    /// The body, empty if there is none.
    pub fn body(&self) -> (body: &str)
        ensures
            body@ == body_of(self.body),
    {
        proof {
            reveal_strlit("");
        }
        match &self.body {
            Some(body) => body.as_str(),
            None => {
                assert(""@ =~= Seq::<char>::empty());
                ""
            },
        }
    }
}

impl<'a> From<HttpResponse<'a>> for String {
    /// The text that is sent for the response.
    fn from(value: HttpResponse<'a>) -> (text: String)
        ensures
            text@ == response_text(value),
    {
        value.to_text()
    }
}

impl<'a> FromSpecImpl<HttpResponse<'a>> for String {
    open spec fn obeys_from_spec() -> bool {
        false
    }

    open spec fn from_spec(value: HttpResponse<'a>) -> String {
        arbitrary()
    }
}

} // verus!
