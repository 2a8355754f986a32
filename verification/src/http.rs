//! HTTP/1.0, as much of it as polling a server takes.

use crate::args;
use crate::text;
use crate::text::{after_prefix, cat3, chars_of, read_unsigned, split_text, text_of, words_of};
use vstd::prelude::*;

verus! {

/// How `{:?}` writes a text.
pub uninterp spec fn debug_text(s: Seq<char>) -> Seq<char>;

/// `format!` with `{:?}` of a `str`: the text in quotes, with what is not
/// printable escaped. It depends on the text alone.
#[verifier::external_body]
fn debug_quote(s: &str) -> (res: String)
    ensures
        res@ == debug_text(s@),
{
    format!("{:?}", s)
}

/// Where a URL leads: the host with its port, and the path.
pub open spec fn target(url: Seq<char>) -> Option<(Seq<char>, Seq<char>)> {
    if "http://"@.is_prefix_of(url) {
        let rest = url.skip(7);
        let i = args::index_from(rest, '/', 0);
        Some(
            (
                rest.take(i),
                if i < rest.len() {
                    rest.skip(i)
                } else {
                    "/"@
                },
            ),
        )
    } else {
        None
    }
}

pub open spec fn auth_line(token: Option<Seq<char>>) -> Seq<char> {
    match token {
        Some(t) => "Authorization: Bearer "@ + t + "\r\n"@,
        None => Seq::empty(),
    }
}

/// The text of a request.
pub open spec fn get_text(hostport: Seq<char>, path: Seq<char>, token: Option<Seq<char>>) -> Seq<char> {
    "GET "@ + path + " HTTP/1.0\r\nHost: "@ + text::split_char(hostport, ':')[0] + "\r\n"@
        + auth_line(token) + "Connection: close\r\n\r\n"@
}

/// A request to be sent.
pub struct Get {
    pub hostport: String,
    pub text: String,
}

/// The request that gets a URL.
pub fn get_request(url: &str, token: Option<&str>) -> (res: Result<Get, String>)
    ensures
        match target(url@) {
            Some((hostport, path)) => res matches Ok(g) && g.hostport@ == hostport && g.text@
                == get_text(hostport, path, crate::graph::str_view(token)),
            None => res matches Err(e) && e@ == "only http:// supported"@,
        },
{
    proof {
        reveal_strlit("http://");
        assert("http://"@.len() == 7);
    }
    let rest = match after_prefix(url, "http://") {
        Some(r) => r,
        None => {
            return Err("only http:// supported".to_owned());
        },
    };
    let v = chars_of(rest.as_str());
    let n: usize = v.len();
    let mut i: usize = 0;
    while i < n && v[i] != '/'
        invariant
            i <= n,
            n == v@.len(),
            v@ == rest@,
            args::index_from(rest@, '/', i as int) == args::index_from(rest@, '/', 0),
        decreases n - i,
    {
        i += 1;
    }
    let hostport = text_of(&v, 0, i);
    assert(hostport@ =~= rest@.take(i as int));
    let path = if i < n {
        let p = text_of(&v, i, n);
        assert(p@ =~= rest@.skip(i as int));
        p
    } else {
        "/".to_owned()
    };
    let hosts = split_text(hostport.as_str(), ':');
    proof {
        text::lemma_split_nonempty(hostport@, text::equals(':'));
        assert(text::views(hosts@)[0] == hosts@[0]@);
    }
    let auth = match token {
        Some(t) => cat3("Authorization: Bearer ", t, "\r\n"),
        None => String::new(),
    };
    assert(auth@ =~= auth_line(crate::graph::str_view(token)));
    let mut req = String::new();
    req.append("GET ");
    req.append(path.as_str());
    req.append(" HTTP/1.0\r\nHost: ");
    req.append(hosts[0].as_str());
    req.append("\r\n");
    req.append(auth.as_str());
    req.append("Connection: close\r\n\r\n");
    assert(req@ =~= get_text(hostport@, path@, crate::graph::str_view(token)));
    Ok(Get { hostport, text: req })
}

/// Whether a head ends before position `i`.
pub open spec fn blank_line_at(raw: Seq<u8>, i: int) -> bool {
    0 <= i && i + 4 <= raw.len() && raw[i] == 13 && raw[i + 1] == 10 && raw[i + 2] == 13 && raw[i
        + 3] == 10
}

/// The length of a response's head: the body begins four bytes after it.
pub fn head_len(raw: &Vec<u8>) -> (res: Result<usize, String>)
    ensures
        match res {
            Ok(n) => blank_line_at(raw@, n as int) && forall|i: int|
                0 <= i < n ==> !#[trigger] blank_line_at(raw@, i),
            Err(e) => e@ == "malformed response (no header terminator)"@ && forall|i: int|
                !#[trigger] blank_line_at(raw@, i),
        },
{
    let len: usize = raw.len();
    if len >= 4 {
        let mut i: usize = 0;
        while i <= len - 4
            invariant
                4 <= len,
                len == raw@.len(),
                i <= len - 3,
                forall|j: int| 0 <= j < i ==> !#[trigger] blank_line_at(raw@, j),
            decreases len - i,
        {
            if raw[i] == 13 && raw[i + 1] == 10 && raw[i + 2] == 13 && raw[i + 3] == 10 {
                assert(blank_line_at(raw@, i as int));
                return Ok(i);
            }
            i += 1;
        }
    }
    Err("malformed response (no header terminator)".to_owned())
}

/// The first line of a head. Lines end with a carriage return and a line feed.
pub open spec fn status_line(head: Seq<char>, i: int) -> Seq<char>
    decreases head.len() - i,
{
    if i + 1 >= head.len() {
        head
    } else if head[i] == '\r' && head[i + 1] == '\n' {
        head.take(i)
    } else {
        status_line(head, i + 1)
    }
}

/// The status that a line names: its second word.
pub open spec fn status(line: Seq<char>) -> Result<u16, Seq<char>> {
    let ws = text::words(line);
    let bad = "bad status line: "@ + debug_text(line);
    if ws.len() < 2 {
        Err(bad)
    } else {
        match text::parse_unsigned(ws[1]) {
            Some(n) => if n <= u16::MAX {
                Ok(n as u16)
            } else {
                Err(bad)
            },
            None => Err(bad),
        }
    }
}

fn first_line(head: &str) -> (res: String)
    ensures
        res@ == status_line(head@, 0),
{
    let v = chars_of(head);
    let n: usize = v.len();
    let mut i: usize = 0;
    while i < n && n - i >= 2
        invariant
            i <= n,
            n == v@.len(),
            v@ == head@,
            status_line(head@, i as int) == status_line(head@, 0),
        decreases n - i,
    {
        if v[i] == '\r' && v[i + 1] == '\n' {
            assert(v@.subrange(0, i as int) =~= head@.take(i as int));
            return text_of(&v, 0, i);
        }
        i += 1;
    }
    head.to_owned()
}

/// The status of a response, from its head.
pub fn status_of(head: &str) -> (res: Result<u16, String>)
    ensures
        match res {
            Ok(c) => status(status_line(head@, 0)) == Ok::<u16, Seq<char>>(c),
            Err(e) => status(status_line(head@, 0)) == Err::<u16, Seq<char>>(e@),
        },
{
    let line = first_line(head);
    let ws = words_of(line.as_str());
    let ghost vs = text::views(ws@);
    assert(vs.len() == ws@.len());
    if ws.len() >= 2 {
        assert(vs[1] == ws@[1]@);
        match read_unsigned(ws[1].as_str(), 65_535) {
            Some(n) => {
                return Ok(n as u16);
            },
            None => {},
        }
    }
    let q = debug_quote(line.as_str());
    Err(text::cat2("bad status line: ", q.as_str()))
}

} // verus!
