use ws_server::http::Request;
use ws_server::server::{content_type, file_path, file_response, not_found_response, route, Route};

fn parse(text: &str) -> Request {
    Request::from(text.to_string()).unwrap()
}

#[test]
fn upgrade_header_routes_to_the_websocket() {
    let request = parse("GET /chat HTTP/1.1\r\nUpgrade:  websocket \r\n\r\n");
    assert_eq!(route(&request), Route::Upgrade);
    let request = parse("GET  HTTP/1.1\r\nUpgrade: websocket\r\n\r\n");
    assert_eq!(route(&request), Route::Upgrade);
}

#[test]
fn other_upgrade_values_route_to_files() {
    for header in ["Upgrade: WebSocket", "Upgrade: h2c", "upgrade: websocket", "Host: x"] {
        let request = parse(&format!("GET /index.html HTTP/1.1\r\n{header}\r\n\r\n"));
        assert_eq!(route(&request), Route::File, "{header}");
    }
}

#[test]
fn empty_uri_is_not_found() {
    let request = parse("GET  HTTP/1.1\r\n\r\n");
    assert_eq!(route(&request), Route::NotFound);
}

#[test]
fn file_path_drops_the_first_character() {
    assert_eq!(file_path("/index.html"), "index.html");
    assert_eq!(file_path("/a/b.css"), "a/b.css");
    assert_eq!(file_path("x"), "index.html");
    assert_eq!(file_path("/"), "index.html");
    assert_eq!(file_path("üb"), "b");
}

#[test]
fn content_types_by_extension() {
    assert_eq!(content_type("index.html"), Some("text/html"));
    assert_eq!(content_type("a/b/style.css"), Some("text/css"));
    assert_eq!(content_type("app.min.js"), Some("text/javascript"));
    assert_eq!(content_type("module.wasm"), Some("application/wasm"));
    assert_eq!(content_type(".html"), Some("text/html"));
}

#[test]
fn other_files_are_not_served() {
    for path in ["", "html", "index", "index.", "index.htm", "index.HTML", "a.html.bak", "a.b/c"] {
        assert_eq!(content_type(path), None, "{path:?}");
    }
}

#[test]
fn file_response_bytes() {
    let response = file_response("HTTP/1.1", "text/css", b"body{}");
    assert_eq!(
        response.as_bytes(),
        &b"HTTP/1.1 200 Ok\r\nContent-Type: text/css\r\nContent-Length: 6\r\n\r\nbody{}"[..]
    );
}

#[test]
fn not_found_response_bytes() {
    let response = not_found_response("HTTP/1.1");
    assert_eq!(
        response.as_bytes(),
        &b"HTTP/1.1 404 Not Ok\r\nContent-Type: text/html\r\nContent-Length: 26\r\n\r\n<b>File Not Found: 404</b>"[..]
    );
}
