//! One plain HTTP request: where it goes, what it says, and what may be read of the answer.

use vstd::prelude::*;
use crate::text;
use crate::wire;

verus! {

/// A request: the address to connect to, and the bytes to send there.
pub struct Request {
    pub address: String,
    pub message: String,
}

/// What a request holds.
pub struct RequestView {
    pub address: Seq<char>,
    pub message: Seq<char>,
}

impl View for Request {
    type V = RequestView;

    open spec fn view(&self) -> RequestView {
        RequestView { address: self.address@, message: self.message@ }
    }
}

/// The host of a URL without its scheme, and its path.
pub open spec fn host_and_path(rest: Seq<char>) -> (Seq<char>, Seq<char>) {
    let i = text::first_index(rest, '/');
    if i < rest.len() {
        (rest.take(i), rest.skip(i))
    } else {
        (rest, "/"@)
    }
}

/// The request for a URL.
pub open spec fn request_for(url: Seq<char>) -> Option<RequestView> {
    match text::after_prefix(url, "http://"@) {
        None => None,
        Some(rest) => {
            let (host, path) = host_and_path(rest);
            Some(
                RequestView {
                    address: if text::has_text(host, ":"@) {
                        host
                    } else {
                        host + ":80"@
                    },
                    message: "GET "@ + path + " HTTP/1.1\r\nHost: "@ + host
                        + "\r\nAccept: text/plain\r\nConnection: close\r\n\r\n"@,
                },
            )
        },
    }
}

/// The request for a URL; none for one that is not plain HTTP.
pub fn request(url: &str) -> (r: Option<Request>)
    ensures
        match r {
            Some(q) => request_for(url@) == Some(q@),
            None => request_for(url@) is None,
        },
{
    let rest: String = match text::past(url, "http://") {
        None => return None,
        Some(rest) => rest,
    };
    let v: Vec<char> = text::chars_of(rest.as_str());
    let i: usize = text::index_of(&v, '/', 0);
    proof {
        assert(v@.skip(0) =~= v@);
        text::lemma_first_index(v@, '/');
    }
    let host: String = text::string_of(&v, 0, i);
    assert(host@ =~= rest@.take(i as int));
    let path: String = if i < v.len() {
        text::string_of(&v, i, v.len())
    } else {
        "/".to_owned()
    };
    assert(i < v@.len() ==> path@ =~= rest@.skip(i as int));
    assert(i == v@.len() ==> host@ =~= rest@);
    let mut address: String = host.clone();
    if !text::contains(host.as_str(), ":") {
        address.append(":80");
    }
    let mut message: String = "GET ".to_owned();
    message.append(path.as_str());
    message.append(" HTTP/1.1\r\nHost: ");
    message.append(host.as_str());
    message.append("\r\nAccept: text/plain\r\nConnection: close\r\n\r\n");
    Some(Request { address, message })
}

/// Why an answer is of no use.
pub enum AnswerFault {
    /// It has no end of its head.
    Malformed,
    /// Its status, which is not success.
    Status(String),
}

/// The status line of an answer's head.
pub open spec fn status_line(head: Seq<char>) -> Seq<char> {
    let lines = text::lines(head);
    if lines.len() == 0 {
        Seq::empty()
    } else {
        lines[0]
    }
}

/// The body of an answer, where it was a success; else its status, where it has one.
pub open spec fn body_in(answer: Seq<char>) -> Result<Seq<char>, Option<Seq<char>>> {
    match text::cut(answer, "\r\n\r\n"@) {
        None => Err(None),
        Some((head, body)) => if text::has_text(status_line(head), " 200"@) {
            Ok(body)
        } else {
            Err(Some(status_line(head)))
        },
    }
}

/// The body of an answer, where it was a success.
pub fn body_of(answer: &str) -> (r: Result<String, AnswerFault>)
    ensures
        match (r, body_in(answer@)) {
            (Ok(b), Ok(body)) => b@ == body,
            (Err(AnswerFault::Malformed), Err(None)) => true,
            (Err(AnswerFault::Status(s)), Err(Some(status))) => s@ == status,
            _ => false,
        },
{
    let (head, body) = match text::split_once(answer, "\r\n\r\n") {
        None => return Err(AnswerFault::Malformed),
        Some(parts) => parts,
    };
    let lines: Vec<String> = text::lines_of(head.as_str());
    assert(text::texts(lines@).len() == lines@.len());
    let status: String = if lines.len() == 0 {
        String::new()
    } else {
        assert(text::texts(lines@)[0] == lines@[0]@);
        lines[0].clone()
    };
    assert(status@ =~= status_line(head@));
    if text::contains(status.as_str(), " 200") {
        Ok(body)
    } else {
        Err(AnswerFault::Status(status))
    }
}

/// What a page is, or why there is none, from the text of an answer.
pub open spec fn page_of(url: Seq<char>, answer: Seq<char>) -> Result<Seq<char>, Seq<char>> {
    match body_in(answer) {
        Ok(body) => Ok(body),
        Err(None) => Err("malformed HTTP response from "@ + url),
        Err(Some(status)) => Err(
            "metrics endpoint "@ + url + " returned "@ + text::debug_form(status),
        ),
    }
}

/// The page of a URL, from the bytes of the answer; bytes that are no text are replaced.
pub fn page(url: &str, answer: &Vec<u8>) -> (r: Result<String, String>)
    ensures
        match (r, page_of(url@, wire::lossy(answer@))) {
            (Ok(body), Ok(owed)) => body@ == owed,
            (Err(said), Err(owed)) => said@ == owed,
            _ => false,
        },
{
    let words: String = wire::lossy_text(answer);
    match body_of(words.as_str()) {
        Ok(body) => Ok(body),
        Err(AnswerFault::Malformed) => {
            let mut said: String = "malformed HTTP response from ".to_owned();
            said.append(url);
            Err(said)
        },
        Err(AnswerFault::Status(status)) => {
            let mut said: String = "metrics endpoint ".to_owned();
            said.append(url);
            said.append(" returned ");
            said.append(text::debug_text(status.as_str()).as_str());
            Err(said)
        },
    }
}

/// A URL is asked for at its host, with the standard port where it has none, and by its path from the first
/// slash on; one without a path by a slash alone, and one of another scheme not at all.
pub proof fn a_url_is_asked_for_at_its_host(host: Seq<char>, path: Seq<char>, other: Seq<char>)
    requires
        !host.contains('/'),
        !host.contains(':'),
    ensures
        request_for("http://"@ + host + seq!['/'] + path) matches Some(r) && r.address == host
            + ":80"@ && r.message == "GET "@ + (seq!['/'] + path) + " HTTP/1.1\r\nHost: "@ + host
            + "\r\nAccept: text/plain\r\nConnection: close\r\n\r\n"@,
        request_for("http://"@ + host) matches Some(r) && r.address == host + ":80"@ && r.message
            == "GET "@ + seq!['/'] + " HTTP/1.1\r\nHost: "@ + host
            + "\r\nAccept: text/plain\r\nConnection: close\r\n\r\n"@,
        !text::begins_with(other, "http://"@) ==> request_for(other) is None,
{
    reveal_strlit("/");
    reveal_strlit(":");
    assert("/"@ =~= seq!['/']);
    let full = host + seq!['/'] + path;
    let a = "http://"@ + host + seq!['/'] + path;
    assert(a =~= "http://"@ + full);
    text::a_prefix_and_the_rest_make_the_text(a, "http://"@, full);
    text::a_prefix_and_the_rest_make_the_text("http://"@ + host, "http://"@, host);
    text::lemma_first_index(full, '/');
    text::lemma_first_index(host, '/');
    let i = text::first_index(full, '/');
    assert(full[host.len() as int] == '/');
    if i < host.len() {
        assert(host[i] == full[i]);
        assert(host.contains('/'));
    }
    assert(full.take(i) =~= host);
    assert(full.skip(i) =~= seq!['/'] + path);
    if text::has_text(host, ":"@) {
        let k = choose|k: int| #[trigger] text::occurs_at(host, ":"@, k);
        assert(host.subrange(k, k + 1)[0] == ':');
        assert(host[k] == ':');
    }
}

/// A host with a port keeps it.
pub proof fn a_port_is_kept(host: Seq<char>, port: Seq<char>)
    requires
        !host.contains('/'),
        !port.contains('/'),
    ensures
        request_for("http://"@ + (host + seq![':'] + port)) matches Some(r) && r.address == host
            + seq![':'] + port,
{
    reveal_strlit(":");
    let full = host + seq![':'] + port;
    text::a_prefix_and_the_rest_make_the_text("http://"@ + full, "http://"@, full);
    text::lemma_first_index(full, '/');
    let i = text::first_index(full, '/');
    if i < full.len() {
        assert(full[i] == '/');
        if i < host.len() {
            assert(host[i] == '/');
        } else if i > host.len() {
            assert(port[i - host.len() - 1] == '/');
        }
    }
    let at = host.len() as int;
    assert(full.subrange(at, at + 1) =~= ":"@);
    assert(text::occurs_at(full, ":"@, at));
}

/// An answer has its body behind the first empty line, and counts where its status line says so; an answer
/// without an empty line counts as none.
pub proof fn a_body_follows_its_head(status: Seq<char>, rest: Seq<char>, body: Seq<char>, at: int)
    requires
        !status.contains('\n'),
        ({
            let answer = status.push('\n') + rest + seq!['\r', '\n', '\r', '\n'] + body;
            &&& at == status.len() + 1 + rest.len()
            &&& forall|k: int| 0 <= k < at ==> !#[trigger] text::occurs_at(answer, "\r\n\r\n"@, k)
        }),
    ensures
        ({
            let answer = status.push('\n') + rest + seq!['\r', '\n', '\r', '\n'] + body;
            let line = text::without_return(status);
            &&& text::has_text(line, " 200"@) ==> body_in(answer) == Ok::<
                Seq<char>,
                Option<Seq<char>>,
            >(body)
            &&& !text::has_text(line, " 200"@) ==> body_in(answer) == Err::<
                Seq<char>,
                Option<Seq<char>>,
            >(Some(line))
        }),
{
    reveal_strlit("\r\n\r\n");
    let end = seq!['\r', '\n', '\r', '\n'];
    assert("\r\n\r\n"@ =~= end);
    let answer = status.push('\n') + rest + end + body;
    assert(answer.subrange(at, at + 4) =~= end);
    assert(text::occurs_at(answer, "\r\n\r\n"@, at));
    text::a_cut_is_made_at_the_first_place(answer, "\r\n\r\n"@, at);
    let head = status.push('\n') + rest;
    assert(answer.take(at) =~= head);
    assert(answer.skip(at + 4) =~= body);
    text::lines_end_at_newlines(status, rest);
}

} // verus!
