//! The static site around the cache: resolving a request path to a file of
//! the site and shaping the reply.  Reading the file and talking to the
//! socket stay with the caller; everything that decides is here.

use vstd::prelude::*;
use crate::text::{
    find_char, find_char_from, lemma_find_char_from, find_pair, find_pair_from,
    lemma_find_pair_from, str_eq, dec_str, u64_to_string,
};

verus! {

/// How a resource is sent back.
pub enum SendMethod {
    Binary,
    PlainText,
}

/// A finished reply: raw bytes or text.
pub enum Response {
    Binary(Vec<u8>),
    PlainText(String),
}

/// The static site: where its files live.
pub struct Website {
    loc: String,
}

/// `s` without its trailing path separators.
pub open spec fn strip_trailing_slashes(s: Seq<char>) -> Seq<char>
    decreases s.len(),
{
    if s.len() > 0 && s[s.len() - 1] == '/' {
        strip_trailing_slashes(s.drop_last())
    } else {
        s
    }
}

/// Where the last path segment of `s` begins (`s` ending in no separator).
pub open spec fn last_segment_start(s: Seq<char>) -> int
    decreases s.len(),
{
    if s.len() == 0 {
        0
    } else if s[s.len() - 1] == '/' {
        s.len() as int
    } else {
        last_segment_start(s.drop_last())
    }
}

/// Whether `s` ends in `suffix`.
pub open spec fn ends_with(s: Seq<char>, suffix: Seq<char>) -> bool {
    s.len() >= suffix.len() && s.subrange(s.len() - suffix.len(), s.len() as int) == suffix
}

/// Where a request path leads: a text or binary file of the site, or
/// nowhere.
pub enum RouteV {
    Text(Seq<char>),
    Bin(Seq<char>),
    Reject,
}

/// The file a request path names: the last nonempty path segment, stripped
/// of a query suffix, placed by its extension; an empty path names the
/// front page.
pub open spec fn route(loc: Seq<char>, url: Seq<char>) -> RouteV {
    let t = strip_trailing_slashes(url);
    if t.len() == 0 {
        RouteV::Text(loc + "/layout/index.html"@)
    } else {
        let seg = t.subrange(last_segment_start(t), t.len() as int);
        let file = match find_char_from(seg, '?', 0) {
            Some(q) => seg.subrange(0, q),
            None => seg,
        };
        if ends_with(file, ".js"@) {
            RouteV::Text(loc + "/scripts/"@ + file)
        } else if ends_with(file, ".html"@) || ends_with(file, ".css"@) {
            RouteV::Text(loc + "/layout/"@ + file)
        } else if ends_with(file, ".jpg"@) || ends_with(file, ".ico"@) || ends_with(
            file,
            ".png"@,
        ) {
            RouteV::Bin(loc + "/layout/"@ + file)
        } else {
            RouteV::Reject
        }
    }
}

proof fn lemma_strip_trailing_slashes(s: Seq<char>, j: int)
    requires
        0 <= j <= s.len(),
        forall|k: int| j <= k < s.len() ==> s[k] == '/',
        j == 0 || s[j - 1] != '/',
    ensures
        strip_trailing_slashes(s) == s.subrange(0, j),
    decreases s.len(),
{
    if j == s.len() {
        if s.len() == 0 {
            assert(s.subrange(0, 0) =~= s);
        } else {
            assert(s.subrange(0, s.len() as int) =~= s);
        }
    } else {
        assert(s[s.len() - 1] == '/');
        let t = s.drop_last();
        assert(forall|k: int| j <= k < t.len() ==> t[k] == s[k] && t[k] == '/');
        lemma_strip_trailing_slashes(t, j);
        assert(t.subrange(0, j) =~= s.subrange(0, j));
    }
}

proof fn lemma_last_segment_start(s: Seq<char>, st: int)
    requires
        0 <= st <= s.len(),
        forall|k: int| st <= k < s.len() ==> s[k] != '/',
        st == 0 || s[st - 1] == '/',
    ensures
        last_segment_start(s) == st,
    decreases s.len(),
{
    if s.len() == 0 {
    } else if s[s.len() - 1] == '/' {
        assert(st == s.len());
    } else {
        assert(st < s.len());
        let t = s.drop_last();
        assert(forall|k: int| st <= k < t.len() ==> t[k] == s[k] && t[k] != '/');
        lemma_last_segment_start(t, st);
    }
}

/// Whether `s` ends in `suffix`.
pub fn ends_with_str(s: &str, suffix: &str) -> (r: bool)
    ensures
        r == ends_with(s@, suffix@),
{
    let n = s.unicode_len();
    let m = suffix.unicode_len();
    if n < m {
        return false;
    }
    let tail = s.substring_char(n - m, n);
    str_eq(tail, suffix)
}

/// The reply to a request nothing else answers.
pub fn create_bad_request_error(description: String) -> (r: Response)
    ensures
        r matches Response::PlainText(s) && s@ == "HTTP/1.1 400 "@ + description@ + "\r\n\r\n"@,
{
    let mut s = String::new();
    s.append("HTTP/1.1 400 ");
    s.append(description.as_str());
    s.append("\r\n\r\n");
    proof {
        assert(s@ =~= "HTTP/1.1 400 "@ + description@ + "\r\n\r\n"@);
    }
    Response::PlainText(s)
}

impl Website {
    /// A site rooted at the given location.
    pub fn new(website_location: String) -> (r: Website)
        ensures
            r.spec_loc() == website_location@,
    {
        Website { loc: website_location }
    }

    /// The location the site was created with.
    pub closed spec fn spec_loc(self) -> Seq<char> {
        self.loc@
    }

    /// Resolves a request path to the file it names and how to send it, or
    /// rejects it with the message the reply carries.
    pub fn get_resource(&self, url: String) -> (r: Result<(SendMethod, String), String>)
        ensures
            match r {
                Ok(p) => (p.0 is PlainText && route(self.spec_loc(), url@) == RouteV::Text(p.1@))
                    || (p.0 is Binary && route(self.spec_loc(), url@) == RouteV::Bin(p.1@)),
                Err(m) => route(self.spec_loc(), url@) == RouteV::Reject && m@
                    == "Don't know how to look for resource at "@ + url@,
            },
    {
        let u = url.as_str();
        let len = u.unicode_len();
        let mut e: usize = len;
        loop
            invariant
                e <= len,
                len == u@.len(),
                forall|k: int| e <= k < len ==> u@[k] == '/',
            ensures
                e <= len,
                forall|k: int| e <= k < len ==> u@[k] == '/',
                e == 0 || u@[e - 1] != '/',
            decreases e,
        {
            if e == 0 {
                break;
            }
            if u.get_char(e - 1) != '/' {
                break;
            }
            e = e - 1;
        }
        proof {
            lemma_strip_trailing_slashes(u@, e as int);
        }
        if e == 0 {
            let mut p = self.loc.clone();
            p.append("/layout/index.html");
            proof {
                assert(strip_trailing_slashes(u@) =~= Seq::<char>::empty());
                assert(p@ =~= self.spec_loc() + "/layout/index.html"@);
            }
            return Ok((SendMethod::PlainText, p));
        }
        let ghost t = u@.subrange(0, e as int);
        let mut st: usize = e;
        loop
            invariant
                st <= e,
                e <= len,
                len == u@.len(),
                forall|k: int| st <= k < e ==> u@[k] != '/',
            ensures
                st <= e,
                forall|k: int| st <= k < e ==> u@[k] != '/',
                st == 0 || u@[st - 1] == '/',
            decreases st,
        {
            if st == 0 {
                break;
            }
            if u.get_char(st - 1) == '/' {
                break;
            }
            st = st - 1;
        }
        proof {
            assert(forall|k: int| st <= k < t.len() ==> t[k] == u@[k]);
            lemma_last_segment_start(t, st as int);
        }
        let seg = u.substring_char(st, e);
        proof {
            assert(seg@ =~= t.subrange(last_segment_start(t), t.len() as int));
            lemma_find_char_from(seg@, '?', 0);
        }
        let file = match find_char(seg, '?') {
            Some(q) => seg.substring_char(0, q),
            None => seg,
        };
        if ends_with_str(file, ".js") {
            let mut p = self.loc.clone();
            p.append("/scripts/");
            p.append(file);
            proof {
                assert(p@ =~= self.spec_loc() + "/scripts/"@ + file@);
            }
            Ok((SendMethod::PlainText, p))
        } else if ends_with_str(file, ".html") || ends_with_str(file, ".css") {
            let mut p = self.loc.clone();
            p.append("/layout/");
            p.append(file);
            proof {
                assert(p@ =~= self.spec_loc() + "/layout/"@ + file@);
            }
            Ok((SendMethod::PlainText, p))
        } else if ends_with_str(file, ".jpg") || ends_with_str(file, ".ico") || ends_with_str(
            file,
            ".png",
        ) {
            let mut p = self.loc.clone();
            p.append("/layout/");
            p.append(file);
            proof {
                assert(p@ =~= self.spec_loc() + "/layout/"@ + file@);
            }
            Ok((SendMethod::Binary, p))
        } else {
            let mut m = String::new();
            m.append("Don't know how to look for resource at ");
            m.append(url.as_str());
            proof {
                assert(m@ =~= "Don't know how to look for resource at "@ + url@);
            }
            Err(m)
        }
    }
}

/// The body of a rejection reply.
pub open spec fn bad_req(m: Seq<char>) -> Seq<char> {
    "HTTP/1.1 400 "@ + m + "\r\n\r\n"@
}

/// What handling one raw request asks of the caller.
pub enum ActionV {
    /// Send exactly this text.
    Reply(Seq<char>),
    /// Read this file and send it as text.
    ReadText(Seq<char>),
    /// Read this file and send it as raw bytes.
    ReadBin(Seq<char>),
}

/// The decision for one raw request: the first line up to the line break,
/// split on spaces into verb, path and version; a malformed line, an
/// unexpected verb or an unresolvable path is answered at once, a resolved
/// GET asks the caller to read the file.
pub open spec fn spec_route_request(loc: Seq<char>, data: Seq<char>) -> ActionV {
    let line = match find_pair_from(data, '\r', '\n', 0) {
        Some(i) => data.subrange(0, i),
        None => data,
    };
    match find_char_from(line, ' ', 0) {
        None => ActionV::Reply(bad_req("Badly formatted HTTP request."@)),
        Some(p1) => match find_char_from(line, ' ', p1 + 1) {
            None => ActionV::Reply(bad_req("Badly formatted HTTP request."@)),
            Some(p2) => {
                let tok0 = line.subrange(0, p1);
                let tok1 = line.subrange(p1 + 1, p2);
                let tok2 = match find_char_from(line, ' ', p2 + 1) {
                    Some(p3) => line.subrange(p2 + 1, p3),
                    None => line.subrange(p2 + 1, line.len() as int),
                };
                if tok2 == "HTTP/6.9"@ {
                    ActionV::Reply("HTTP/6.9 420 nice 👌\r\n\r\n"@)
                } else if tok0 == "GET"@ {
                    match route(loc, tok1) {
                        RouteV::Text(p) => ActionV::ReadText(p),
                        RouteV::Bin(p) => ActionV::ReadBin(p),
                        RouteV::Reject => ActionV::Reply(
                            bad_req(
                                "Cannot handle GET Request. "@
                                    + ("Don't know how to look for resource at "@ + tok1),
                            ),
                        ),
                    }
                } else if tok0 == "PUT"@ {
                    ActionV::Reply(bad_req("server doesn't expect a put request"@))
                } else {
                    ActionV::Reply(bad_req("what are you even trying to do"@))
                }
            },
        },
    }
}

/// What handling one raw request asks of the caller.
pub enum RequestAction {
    /// Send this reply.
    Respond(Response),
    /// Read the named file and reply with it, through `ok_text_response`,
    /// `ok_binary_response` or `read_failed_response`.
    ReadFile(SendMethod, String),
}

impl Website {
    /// Decides the reply to one raw request.
    pub fn route_request(&self, data: &str) -> (r: RequestAction)
        ensures
            match r {
                RequestAction::Respond(resp) => resp matches Response::PlainText(s)
                    && spec_route_request(self.spec_loc(), data@) == ActionV::Reply(s@),
                RequestAction::ReadFile(m, p) => (m is PlainText && spec_route_request(
                    self.spec_loc(),
                    data@,
                ) == ActionV::ReadText(p@)) || (m is Binary && spec_route_request(
                    self.spec_loc(),
                    data@,
                ) == ActionV::ReadBin(p@)),
            },
    {
        proof {
            lemma_find_pair_from(data@, '\r', '\n', 0);
        }
        let line = match find_pair(data, '\r', '\n') {
            Some(i) => data.substring_char(0, i),
            None => data,
        };
        proof {
            lemma_find_char_from(line@, ' ', 0);
        }
        let p1 = match find_char(line, ' ') {
            Some(p1) => p1,
            None => {
                return RequestAction::Respond(
                    create_bad_request_error("Badly formatted HTTP request.".to_owned()),
                );
            },
        };
        let llen = line.unicode_len();
        proof {
            lemma_find_char_from(line@, ' ', p1 + 1);
        }
        let p2 = match find_char_after(line, ' ', p1 + 1) {
            Some(p2) => p2,
            None => {
                return RequestAction::Respond(
                    create_bad_request_error("Badly formatted HTTP request.".to_owned()),
                );
            },
        };
        let tok0 = line.substring_char(0, p1);
        let tok1 = line.substring_char(p1 + 1, p2);
        proof {
            lemma_find_char_from(line@, ' ', p2 + 1);
        }
        let tok2 = match find_char_after(line, ' ', p2 + 1) {
            Some(p3) => line.substring_char(p2 + 1, p3),
            None => line.substring_char(p2 + 1, llen),
        };
        if str_eq(tok2, "HTTP/6.9") {
            RequestAction::Respond(
                Response::PlainText("HTTP/6.9 420 nice 👌\r\n\r\n".to_owned()),
            )
        } else if str_eq(tok0, "GET") {
            match self.get_resource(tok1.to_owned()) {
                Ok((m, path)) => RequestAction::ReadFile(m, path),
                Err(m) => {
                    let mut full = String::new();
                    full.append("Cannot handle GET Request. ");
                    full.append(m.as_str());
                    proof {
                        assert(full@ =~= "Cannot handle GET Request. "@ + m@);
                    }
                    RequestAction::Respond(create_bad_request_error(full))
                },
            }
        } else if str_eq(tok0, "PUT") {
            RequestAction::Respond(
                create_bad_request_error("server doesn't expect a put request".to_owned()),
            )
        } else {
            RequestAction::Respond(
                create_bad_request_error("what are you even trying to do".to_owned()),
            )
        }
    }
}

/// The first position of `c` in `s` at or after `from`.
fn find_char_after(s: &str, c: char, from: usize) -> (r: Option<usize>)
    ensures
        match r {
            Some(i) => find_char_from(s@, c, from as int) == Some(i as int),
            None => find_char_from(s@, c, from as int) is None,
        },
{
    let len = s.unicode_len();
    let mut i: usize = from;
    proof {
        lemma_find_char_from(s@, c, from as int);
    }
    if i > len {
        return None;
    }
    loop
        invariant
            from <= i <= len,
            len == s@.len(),
            find_char_from(s@, c, from as int) == find_char_from(s@, c, i as int),
        ensures
            (i == len && find_char_from(s@, c, from as int) is None) || (i < len && s@[i as int]
                == c && find_char_from(s@, c, from as int) == Some(i as int)),
        decreases len - i,
    {
        if i == len {
            break;
        }
        if s.get_char(i) == c {
            break;
        }
        i = i + 1;
    }
    if i == len {
        None
    } else {
        Some(i)
    }
}

/// The reply when the named file is readable text.
pub fn ok_text_response(body: String) -> (r: Response)
    ensures
        r matches Response::PlainText(s) && s@ == "HTTP/1.1 200 OK\r\nContent-Length: "@
            + dec_str((vstd::utf8::encode_utf8(body@).len() as usize) as nat) + "\r\n\r\n"@ + body@,
{
    let n = body.as_str().len();
    let len_text = u64_to_string(n as u64);
    let mut s = String::new();
    s.append("HTTP/1.1 200 OK\r\nContent-Length: ");
    s.append(len_text.as_str());
    s.append("\r\n\r\n");
    s.append(body.as_str());
    proof {
        assert(s@ =~= "HTTP/1.1 200 OK\r\nContent-Length: "@ + dec_str((vstd::utf8::encode_utf8(body@).len() as usize) as nat)
            + "\r\n\r\n"@ + body@);
    }
    Response::PlainText(s)
}

/// The reply when the named file is readable binary data: the header's
/// bytes followed by the data verbatim.
pub fn ok_binary_response(data: Vec<u8>) -> (r: Response)
    ensures
        r matches Response::Binary(b) && b@ == vstd::utf8::encode_utf8(
            "HTTP/1.1 200 OK\r\nContent-Length: "@ + dec_str(data@.len()) + "\r\n\r\n"@,
        ) + data@,
{
    let n = data.len();
    let len_text = u64_to_string(n as u64);
    let mut h = String::new();
    h.append("HTTP/1.1 200 OK\r\nContent-Length: ");
    h.append(len_text.as_str());
    h.append("\r\n\r\n");
    proof {
        assert(h@ =~= "HTTP/1.1 200 OK\r\nContent-Length: "@ + dec_str(data@.len())
            + "\r\n\r\n"@);
    }
    let hb = h.as_str().as_bytes();
    let m = hb.len();
    let mut out: Vec<u8> = Vec::new();
    let mut i: usize = 0;
    while i < m
        invariant
            i <= m,
            m == hb@.len(),
            hb@ == vstd::utf8::encode_utf8(h@),
            out@ == hb@.take(i as int),
        decreases m - i,
    {
        out.push(hb[i]);
        proof {
            assert(hb@.take(i + 1) =~= hb@.take(i as int).push(hb@[i as int]));
        }
        i = i + 1;
    }
    proof {
        assert(hb@.take(m as int) =~= hb@);
    }
    let mut rest = data;
    out.append(&mut rest);
    Response::Binary(out)
}

/// The reply when the named file cannot be read.
pub fn read_failed_response(err: String) -> (r: Response)
    ensures
        r matches Response::PlainText(s) && s@ == "HTTP/1.1 400 "@ + ("Cannot open file: "@
            + err@) + "\r\n\r\n"@,
{
    let mut m = String::new();
    m.append("Cannot open file: ");
    m.append(err.as_str());
    proof {
        assert(m@ =~= "Cannot open file: "@ + err@);
    }
    create_bad_request_error(m)
}

} // verus!
