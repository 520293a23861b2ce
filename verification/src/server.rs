//! What the server answers to a request: an upgrade to a WebSocket
//! connection, a static file, or "not found".

use vstd::prelude::*;
use vstd::string::StrSliceExecFns;
use crate::http::{
    content_length_line, crlf, header_line, header_value, status_line, Request, Response,
    ResponseComplete,
};
use crate::text::{collect_chars, str_equal};

verus! {

/// The three ways in which a request is answered.
#[derive(Clone, Copy, Debug, PartialEq, Eq, Structural)]
pub enum Route {
    /// The request asks for an upgrade to a WebSocket connection.
    Upgrade,
    /// The request asks for a file.
    File,
    /// The request names nothing that could be served.
    NotFound,
}

/// The way in which a request is answered: an upgrade where the header
/// `Upgrade` says `websocket`, else a file where the request has a URI, else
/// "not found".
pub open spec fn route_of(request: crate::http::RequestView) -> Route {
    if header_value(request.headers, "Upgrade"@) == Some("websocket"@) {
        Route::Upgrade
    } else if request.line.uri.len() > 0 {
        Route::File
    } else {
        Route::NotFound
    }
}

/// Decides how a request is answered.
pub fn route(req: &Request) -> (r: Route)
    ensures
        r == route_of(req@),
{
    let upgrade: bool = match req.get_header("Upgrade") {
        Some(value) => str_equal(value, "websocket"),
        None => false,
    };
    if upgrade {
        Route::Upgrade
    } else if req.get_uri().unicode_len() > 0 {
        Route::File
    } else {
        Route::NotFound
    }
}

/// The path of the file that a URI asks for: the URI without its first
/// character, and `index.html` where nothing follows that character.
pub open spec fn file_path_of(uri: Seq<char>) -> Seq<char> {
    if uri.len() <= 1 {
        "index.html"@
    } else {
        uri.skip(1)
    }
}

/// The path of the file that the request asks for.
pub fn file_path(uri: &str) -> (r: &str)
    requires
        uri@.len() > 0,
    ensures
        r@ == file_path_of(uri@),
{
    let n: usize = uri.unicode_len();
    if n <= 1 {
        "index.html"
    } else {
        let path: &str = uri.substring_char(1, n);
        assert(path@ =~= uri@.skip(1));
        path
    }
}

/// The index of the last `c` in `s`.
pub open spec fn find_last(s: Seq<char>, c: char) -> Option<int>
    decreases s.len(),
{
    if s.len() == 0 {
        None
    } else if s.last() == c {
        Some(s.len() - 1)
    } else {
        find_last(s.drop_last(), c)
    }
}

/// The content type of a file, by what follows the last dot of its path.
/// Files of other kinds, and paths without a dot, are not served.
pub open spec fn content_type_of(path: Seq<char>) -> Option<Seq<char>> {
    match find_last(path, '.') {
        None => None,
        Some(dot) => {
            let extension = path.skip(dot + 1);
            if extension == "html"@ {
                Some("text/html"@)
            } else if extension == "css"@ {
                Some("text/css"@)
            } else if extension == "js"@ {
                Some("text/javascript"@)
            } else if extension == "wasm"@ {
                Some("application/wasm"@)
            } else {
                None
            }
        },
    }
}

/// The content type under which a file is served, if it is served at all.
pub fn content_type(filepath: &str) -> (r: Option<&'static str>)
    ensures
        match r {
            Some(name) => content_type_of(filepath@) == Some(name@),
            None => content_type_of(filepath@) is None,
        },
{
    let chars: Vec<char> = collect_chars(filepath);
    let n: usize = chars.len();
    let mut end: usize = n;
    assert(chars@.take(n as int) =~= chars@);
    while end > 0 && chars[end - 1] != '.'
        invariant
            end <= n,
            n == chars@.len(),
            find_last(chars@, '.') == find_last(chars@.take(end as int), '.'),
        decreases end,
    {
        assert(chars@.take(end as int).drop_last() =~= chars@.take(end - 1));
        end -= 1;
    }
    if end == 0 {
        return None;
    }
    let extension: &str = filepath.substring_char(end, n);
    assert(extension@ =~= filepath@.skip(end as int));
    if str_equal(extension, "html") {
        Some("text/html")
    } else if str_equal(extension, "css") {
        Some("text/css")
    } else if str_equal(extension, "js") {
        Some("text/javascript")
    } else if str_equal(extension, "wasm") {
        Some("application/wasm")
    } else {
        None
    }
}

/// The response that carries a file: status `200 Ok`, the content type and
/// the file's bytes as payload.
pub fn file_response(version: &str, content_type: &str, data: &[u8]) -> (r: ResponseComplete)
    ensures
        r@ == status_line(version@, "Ok"@, 200) + header_line("Content-Type"@, content_type@)
            + content_length_line(data@.len()) + crlf() + data@,
{
    proof {
        reveal_strlit("Content-Type");
        reveal_strlit("Content-Length");
        assert("Content-Type"@.len() != "Content-Length"@.len());
    }
    Response::status(version, "Ok", 200).header("Content-Type", content_type).payload(data)
}

/// The response to a request that names nothing: status `404 Not Ok` with a
/// short page.
pub fn not_found_response(version: &str) -> (r: ResponseComplete)
    ensures
        r@ == status_line(version@, "Not Ok"@, 404) + header_line("Content-Type"@, "text/html"@)
            + content_length_line(26) + crlf() + seq![
            0x3Cu8, 0x62, 0x3E, 0x46, 0x69, 0x6C, 0x65, 0x20, 0x4E, 0x6F, 0x74, 0x20, 0x46, 0x6F,
            0x75, 0x6E, 0x64, 0x3A, 0x20, 0x34, 0x30, 0x34, 0x3C, 0x2F, 0x62, 0x3E,
        ],
{
    proof {
        reveal_strlit("Content-Type");
        reveal_strlit("Content-Length");
        assert("Content-Type"@.len() != "Content-Length"@.len());
    }
    let page: [u8; 26] = [
        0x3C, 0x62, 0x3E, 0x46, 0x69, 0x6C, 0x65, 0x20, 0x4E, 0x6F, 0x74, 0x20, 0x46, 0x6F, 0x75,
        0x6E, 0x64, 0x3A, 0x20, 0x34, 0x30, 0x34, 0x3C, 0x2F, 0x62, 0x3E,
    ];
    let response: ResponseComplete = Response::status(version, "Not Ok", 404).header(
        "Content-Type",
        "text/html",
    ).payload(page.as_slice());
    assert(page@ =~= seq![
        0x3Cu8, 0x62, 0x3E, 0x46, 0x69, 0x6C, 0x65, 0x20, 0x4E, 0x6F, 0x74, 0x20, 0x46, 0x6F, 0x75,
        0x6E, 0x64, 0x3A, 0x20, 0x34, 0x30, 0x34, 0x3C, 0x2F, 0x62, 0x3E,
    ]);
    response
}

} // verus!
