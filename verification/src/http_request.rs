//! An HTTP request, read from the text that a client sends.

use crate::headers::Headers;
use crate::text::{blanks_end, find_char, find_in, lemma_skip_bounds, skip_blanks, skip_word};
use crate::text::{str_eq, to_chars, word_end};
use vstd::prelude::*;
use vstd::std_specs::convert::FromSpecImpl;
use vstd::string::*;

verus! {

/// The method of a request.
#[derive(Debug, Clone, Copy, PartialEq, Eq, Structural)]
pub enum Method {
    Get,
    Post,
    Uninitialized,
}

/// The protocol version of a request.
#[derive(Debug, Clone, Copy, PartialEq, Eq, Structural)]
pub enum Version {
    V1_1,
    V2_0,
    Uninitialized,
}

/// What a request asks for.
#[derive(Debug, PartialEq)]
pub enum Resource {
    Path(String),
}

/// The method that `word` names: `GET` and `POST` in capitals, nothing else.
pub open spec fn method_of(word: Seq<char>) -> Method {
    if word == "GET"@ {
        Method::Get
    } else if word == "POST"@ {
        Method::Post
    } else {
        Method::Uninitialized
    }
}

/// The version that `word` names: `HTTP/1.1` and `HTTP/2.0`, nothing else.
pub open spec fn version_of(word: Seq<char>) -> Version {
    if word == "HTTP/1.1"@ {
        Version::V1_1
    } else if word == "HTTP/2.0"@ {
        Version::V2_0
    } else {
        Version::Uninitialized
    }
}

impl From<&str> for Method {
    fn from(value: &str) -> (m: Method)
        ensures
            m == method_of(value@),
    {
        if str_eq(value, "GET") {
            Method::Get
        } else if str_eq(value, "POST") {
            Method::Post
        } else {
            Method::Uninitialized
        }
    }
}

impl FromSpecImpl<&str> for Method {
    open spec fn obeys_from_spec() -> bool {
        true
    }

    open spec fn from_spec(value: &str) -> Method {
        method_of(value@)
    }
}

impl From<&str> for Version {
    fn from(value: &str) -> (v: Version)
        ensures
            v == version_of(value@),
    {
        if str_eq(value, "HTTP/1.1") {
            Version::V1_1
        } else if str_eq(value, "HTTP/2.0") {
            Version::V2_0
        } else {
            Version::Uninitialized
        }
    }
}

impl FromSpecImpl<&str> for Version {
    open spec fn obeys_from_spec() -> bool {
        true
    }

    open spec fn from_spec(value: &str) -> Version {
        version_of(value@)
    }
}

/// A request: request line, header fields and body.
#[derive(Debug)]
pub struct HttpRequest {
    pub method: Method,
    pub version: Version,
    pub resource: Resource,
    pub headers: Headers,
    pub msg_body: String,
}

/// A request as contracts see it.
pub struct RequestView {
    pub method: Method,
    pub version: Version,
    pub resource: Seq<char>,
    pub headers: Map<Seq<char>, Seq<char>>,
    pub msg_body: Seq<char>,
}

/// The request before any line is read: no method, HTTP/1.1, an empty path,
/// no headers and an empty body.
pub open spec fn blank_request() -> RequestView {
    RequestView {
        method: Method::Uninitialized,
        version: Version::V1_1,
        resource: Seq::empty(),
        headers: Map::empty(),
        msg_body: Seq::empty(),
    }
}

/// The place after the line that begins at `pos`: that of the next line
/// feed, or the end of the text.
pub open spec fn line_end(text: Seq<char>, pos: int) -> int {
    find_char(text, '\n', pos)
}

/// The line that begins at `pos`, without its line feed and without the
/// carriage return before the line feed, if there is one. A carriage return
/// at the end of a last line that no line feed ends is part of the line.
pub open spec fn line_at(text: Seq<char>, pos: int) -> Seq<char> {
    let end = line_end(text, pos);
    if end < text.len() && pos < end && text[end - 1] == '\r' {
        text.subrange(pos, end - 1)
    } else {
        text.subrange(pos, end)
    }
}

/// The lines of `text` from `pos` on. A line feed at the very end of the
/// text begins no further line.
pub open spec fn lines_from(text: Seq<char>, pos: int) -> Seq<Seq<char>>
    decreases text.len() - pos,
{
    if 0 <= pos < text.len() {
        if pos <= line_end(text, pos) < text.len() {
            seq![line_at(text, pos)] + lines_from(text, line_end(text, pos) + 1)
        } else {
            seq![line_at(text, pos)]
        }
    } else {
        Seq::empty()
    }
}

/// Whether the letters `HTTP` stand somewhere in `line`.
pub open spec fn mentions_http(line: Seq<char>) -> bool {
    exists|i: int| http_at(line, i)
}

/// Whether the letters `HTTP` stand in `line` at place `i`.
pub open spec fn http_at(line: Seq<char>, i: int) -> bool {
    &&& 0 <= i
    &&& i + 4 <= line.len()
    &&& line[i] == 'H'
    &&& line[i + 1] == 'T'
    &&& line[i + 2] == 'T'
    &&& line[i + 3] == 'P'
}

/// Where the word number `n` of `line` begins and ends. Words are set apart
/// by white space. A word that begins at the end of the line is no word.
pub open spec fn word_range(line: Seq<char>, n: nat) -> (int, int)
    decreases n,
{
    let from = if n == 0 {
        0
    } else {
        word_range(line, (n - 1) as nat).1
    };
    (skip_blanks(line, from), skip_word(line, skip_blanks(line, from)))
}

/// Whether `line` has a word number `n`.
pub open spec fn has_word(line: Seq<char>, n: nat) -> bool {
    word_range(line, n).0 < line.len()
}

/// The word number `n` of `line`.
pub open spec fn word(line: Seq<char>, n: nat) -> Seq<char> {
    line.subrange(word_range(line, n).0, word_range(line, n).1)
}

/// The request after a request line: its first word names the method, its
/// second is the path and its third names the version. A word that the line
/// does not have leaves what it would have set.
pub open spec fn read_request_line(r: RequestView, line: Seq<char>) -> RequestView {
    RequestView {
        method: if has_word(line, 0) {
            method_of(word(line, 0))
        } else {
            r.method
        },
        resource: if has_word(line, 1) {
            word(line, 1)
        } else {
            r.resource
        },
        version: if has_word(line, 2) {
            version_of(word(line, 2))
        } else {
            r.version
        },
        ..r
    }
}

/// The name of the header field in `line`: what stands before the first
/// colon.
pub open spec fn field_name(line: Seq<char>) -> Seq<char> {
    line.subrange(0, find_char(line, ':', 0))
}

/// The value of the header field in `line`: what stands between the first
/// colon and the second, or the end of the line.
pub open spec fn field_value(line: Seq<char>) -> Seq<char> {
    line.subrange(find_char(line, ':', 0) + 1, find_char(line, ':', find_char(line, ':', 0) + 1))
}

/// The request after `line`: a line that mentions `HTTP` is the request
/// line; any other line with a colon is a header field; an empty line
/// changes nothing; any other line is the body.
pub open spec fn read_line(r: RequestView, line: Seq<char>) -> RequestView {
    if mentions_http(line) {
        read_request_line(r, line)
    } else if find_char(line, ':', 0) < line.len() {
        RequestView { headers: r.headers.insert(field_name(line), field_value(line)), ..r }
    } else if line.len() == 0 {
        r
    } else {
        RequestView { msg_body: line, ..r }
    }
}

/// The request after the lines `lines`, read in order.
pub open spec fn read_lines(lines: Seq<Seq<char>>) -> RequestView
    decreases lines.len(),
{
    if lines.len() == 0 {
        blank_request()
    } else {
        read_line(read_lines(lines.drop_last()), lines.last())
    }
}

/// The request that `text` spells.
pub open spec fn parse_request(text: Seq<char>) -> RequestView {
    read_lines(lines_from(text, 0))
}

/// Whether the letters `HTTP` stand somewhere in `line`.
fn find_http(line: &Vec<char>) -> (found: bool)
    ensures
        found == mentions_http(line@),
{
    let n = line.len();
    if n < 4 {
        assert(forall|i: int| !http_at(line@, i));
        return false;
    }
    let mut i: usize = 0;
    while i <= n - 4
        invariant
            n == line@.len(),
            n >= 4,
            i <= n - 3,
            forall|j: int| 0 <= j < i ==> !http_at(line@, j),
        decreases n - i,
    {
        if line[i] == 'H' && line[i + 1] == 'T' && line[i + 2] == 'T' && line[i + 3] == 'P' {
            assert(http_at(line@, i as int));
            return true;
        }
        i += 1;
    }
    assert(forall|j: int| !http_at(line@, j));
    false
}

impl View for HttpRequest {
    type V = RequestView;

    open spec fn view(&self) -> RequestView {
        RequestView {
            method: self.method,
            version: self.version,
            resource: match self.resource {
                Resource::Path(p) => p@,
            },
            headers: self.headers@,
            msg_body: self.msg_body@,
        }
    }
}

impl HttpRequest {
    /// The header fields are well formed.
    pub open spec fn wf(&self) -> bool {
        self.headers.wf()
    }

    /// The request before any line is read.
    pub fn default() -> (r: HttpRequest)
        ensures
            r.wf(),
            r@ == blank_request(),
    {
        HttpRequest {
            method: Method::Uninitialized,
            version: Version::V1_1,
            resource: Resource::Path(String::new()),
            headers: Headers::new(),
            msg_body: String::new(),
        }
    }

    /// Reads one line of a request into the request.
    pub fn read_line(&mut self, line: &str)
        requires
            old(self).wf(),
        ensures
            final(self).wf(),
            final(self)@ == read_line(old(self)@, line@),
    {
        let chars = to_chars(line);
        let n = chars.len();
        proof {
            lemma_skip_bounds(chars@, ':', 0);
        }
        let colon = find_in(&chars, ':', 0, n);
        assert(chars@.subrange(0, n as int) =~= chars@);
        if find_http(&chars) {
            let a0 = blanks_end(&chars, 0);
            let b0 = word_end(&chars, a0);
            let a1 = blanks_end(&chars, b0);
            let b1 = word_end(&chars, a1);
            let a2 = blanks_end(&chars, b1);
            let b2 = word_end(&chars, a2);
            proof {
                assert(word_range(line@, 0) == (a0 as int, b0 as int));
                assert(word_range(line@, 1) == (a1 as int, b1 as int));
                assert(word_range(line@, 2) == (a2 as int, b2 as int));
            }
            if a0 < n {
                self.method = Method::from(line.substring_char(a0, b0));
            }
            if a1 < n {
                self.resource = Resource::Path(line.substring_char(a1, b1).to_owned());
            }
            if a2 < n {
                self.version = Version::from(line.substring_char(a2, b2));
            }
        } else if colon < n {
            proof {
                lemma_skip_bounds(chars@, ':', colon + 1);
            }
            let stop = find_in(&chars, ':', colon + 1, n);
            let key = line.substring_char(0, colon);
            let value = line.substring_char(colon + 1, stop);
            self.headers.insert(key, value);
        } else if n == 0 {
        } else {
            self.msg_body = line.to_owned();
        }
    }

    /// Reads a request from the text that a client sent.
    pub fn parse(text: &str) -> (r: HttpRequest)
        ensures
            r.wf(),
            r@ == parse_request(text@),
    {
        let chars = to_chars(text);
        let n = chars.len();
        let mut request = HttpRequest::default();
        let mut pos: usize = 0;
        let ghost mut done: Seq<Seq<char>> = Seq::empty();
        assert(done + lines_from(text@, 0) =~= lines_from(text@, 0));
        while pos < n
            invariant
                chars@ == text@,
                n == text@.len(),
                request.wf(),
                request@ == read_lines(done),
                lines_from(text@, 0) == done + lines_from(text@, pos as int),
            decreases n - pos,
        {
            proof {
                lemma_skip_bounds(text@, '\n', pos as int);
            }
            let end = find_in(&chars, '\n', pos, n);
            assert(chars@.subrange(0, n as int) =~= chars@);
            let cut = if end < n && pos < end && chars[end - 1] == '\r' {
                end - 1
            } else {
                end
            };
            let line = text.substring_char(pos, cut);
            proof {
                let rest = lines_from(text@, end + 1);
                assert(line@ == line_at(text@, pos as int));
                assert(done.push(line@).drop_last() =~= done);
                if end < n {
                    assert(done + (seq![line@] + rest) =~= done.push(line@) + rest);
                } else {
                    assert(done + seq![line@] =~= done.push(line@));
                }
                done = done.push(line@);
            }
            request.read_line(line);
            if end == n {
                return request;
            }
            pos = end + 1;
        }
        assert(done + Seq::<Seq<char>>::empty() =~= done);
        request
    }
}

impl From<String> for HttpRequest {
    /// Reads a request from the text that a client sent.
    fn from(value: String) -> (r: HttpRequest)
        ensures
            r.wf(),
            r@ == parse_request(value@),
    {
        HttpRequest::parse(value.as_str())
    }
}

impl FromSpecImpl<String> for HttpRequest {
    open spec fn obeys_from_spec() -> bool {
        false
    }

    open spec fn from_spec(value: String) -> HttpRequest {
        arbitrary()
    }
}

} // verus!
