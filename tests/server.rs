use guest_server::HttpMethod;
use guest_server::HttpResponse;
use guest_server::ParsedRequest;
use guest_server::Server;

type Handler = fn(Option<Vec<u8>>) -> HttpResponse;

fn request(method: Option<HttpMethod>, path: &str, body: &[u8]) -> ParsedRequest {
    ParsedRequest {
        method,
        path: path.as_bytes().to_vec(),
        body: body.to_vec(),
    }
}

fn home(_body: Option<Vec<u8>>) -> HttpResponse {
    HttpResponse::new(200, Some("Hello, World!".to_string()))
}

fn echo(body: Option<Vec<u8>>) -> HttpResponse {
    match body {
        Some(b) => HttpResponse::new(201, Some(String::from_utf8(b).unwrap())),
        None => HttpResponse::new(400, Some("no body".to_string())),
    }
}

fn never(_body: Option<Vec<u8>>) -> HttpResponse {
    panic!("the route table must not be consulted")
}

#[test]
fn registered_route_returns_handler_response() {
    let mut server: Server<Handler> = Server::new();
    server.get("/", home);
    let r = server.handle_request(request(Some(HttpMethod::GET), "/", b""));
    assert_eq!(r.status_code, 200);
    assert_eq!(r.body.as_deref(), Some("Hello, World!"));
}

#[test]
fn post_handler_gets_the_body() {
    let mut server: Server<Handler> = Server::new();
    server.post("/submit", echo);
    let r = server.handle_request(request(Some(HttpMethod::POST), "/submit", b"{\"k\":1}"));
    assert_eq!(r.status_code, 201);
    assert_eq!(r.body.as_deref(), Some("{\"k\":1}"));
    let r = server.handle_request(request(Some(HttpMethod::POST), "/submit", b""));
    assert_eq!(r.status_code, 400);
}

#[test]
fn unsupported_method_is_405_without_lookup() {
    let mut server: Server<Handler> = Server::new();
    server.get("/", never);
    server.post("/", never);
    let r = server.handle_request(request(None, "/", b""));
    assert_eq!(r.status_code, 405);
    assert!(r.body.is_none());
    let r = server.handle_request(request(None, "/missing", b"abc"));
    assert_eq!(r.status_code, 405);
}

#[test]
fn unregistered_path_is_404() {
    let mut server: Server<Handler> = Server::new();
    server.get("/a", home);
    let r = server.handle_request(request(Some(HttpMethod::GET), "/b", b""));
    assert_eq!(r.status_code, 404);
    assert!(r.body.is_none());
    let r = server.handle_request(request(Some(HttpMethod::POST), "/a", b""));
    assert_eq!(r.status_code, 404);
    let r = server.handle_request(request(Some(HttpMethod::GET), "/a/", b""));
    assert_eq!(r.status_code, 404);
    let r = server.handle_request(request(Some(HttpMethod::GET), "/A", b""));
    assert_eq!(r.status_code, 404);
}

#[test]
fn last_registration_wins() {
    let mut server: Server<Handler> = Server::new();
    server.post("/x", home);
    server.post("/x", echo);
    let r = server.handle_request(request(Some(HttpMethod::POST), "/x", b"hey"));
    assert_eq!(r.status_code, 201);
    assert_eq!(r.body.as_deref(), Some("hey"));
}

#[test]
fn processing_response_dispatches_by_method_and_path() {
    let mut server: Server<Handler> = Server::new();
    server.get("/p", home);
    let r = server.processing_response(Vec::new(), HttpMethod::GET, &b"/p".to_vec());
    assert_eq!(r.status_code, 200);
    let r = server.processing_response(Vec::new(), HttpMethod::POST, &b"/p".to_vec());
    assert_eq!(r.status_code, 404);
}

#[test]
fn many_registrations_all_stay_reachable() {
    let mut server: Server<Handler> = Server::new();
    let paths: Vec<String> = (0..50).map(|i| format!("/p{}", i)).collect();
    for p in &paths {
        server.get(p, home);
    }
    for p in &paths {
        let r = server.handle_request(request(Some(HttpMethod::GET), p, b""));
        assert_eq!(r.status_code, 200);
    }
}

#[test]
fn full_exchange_produces_wire_bytes() {
    let mut server: Server<Handler> = Server::new();
    server.get("/", home);
    let mut reader = guest_server::RequestReader::new();
    let step = reader.feed(b"GET / HTTP/1.1\r\nHost: localhost\r\n\r\n");
    let req = match step {
        guest_server::ReadStep::Done(r) => r,
        _ => panic!("request should be complete"),
    };
    let bytes = Server::<Handler>::generate_http_response(&server.handle_request(req));
    let text = String::from_utf8(bytes).unwrap();
    assert!(text.starts_with("HTTP/1.1 200 OK\r\n"));
    assert!(text.contains("Content-Type: text/plain\r\n"));
    assert!(text.contains("Content-Length: 13\r\n"));
    assert!(text.ends_with("\r\n\r\nHello, World!"));
}
