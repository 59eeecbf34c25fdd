use load_balancer::interpreter::HttpRequest;

fn header_pairs(req: &HttpRequest) -> Vec<(String, String)> {
    req.headers.iter().map(|h| (h.name.clone(), h.value.clone())).collect()
}

#[test]
fn request_line_and_headers_are_read() {
    let req = HttpRequest::from_string(
        "GET /index.html HTTP/1.1\r\nHost: example.com\r\nAccept: */*\r\n\r\nbody: ignored".to_string(),
    )
    .unwrap();
    assert_eq!(req.method, Some("GET".to_string()));
    assert_eq!(req.path, Some("/index.html".to_string()));
    assert_eq!(req.http_version, Some("HTTP/1.1".to_string()));
    assert_eq!(
        header_pairs(&req),
        vec![
            ("Host".to_string(), "example.com".to_string()),
            ("Accept".to_string(), "*/*".to_string())
        ]
    );
}

#[test]
fn reserved_header_names_override_the_request_line() {
    let req = HttpRequest::from_string(
        "GET / HTTP/1.0\nMETHOD: POST\nPath: /x\nhttp_Version: HTTP/2\nX: a: b".to_string(),
    )
    .unwrap();
    assert_eq!(req.method, Some("POST".to_string()));
    assert_eq!(req.path, Some("/x".to_string()));
    assert_eq!(req.http_version, Some("HTTP/2".to_string()));
    assert_eq!(header_pairs(&req), vec![("X".to_string(), "a: b".to_string())]);
}

#[test]
fn words_are_split_at_any_whitespace() {
    let req = HttpRequest::from_string("  PUT\t/a  HTTP/1.1 extra\r\n".to_string()).unwrap();
    assert_eq!(req.method, Some("PUT".to_string()));
    assert_eq!(req.path, Some("/a".to_string()));
    assert_eq!(req.http_version, Some("HTTP/1.1".to_string()));
    assert!(req.headers.is_empty());
}

#[test]
fn malformed_requests_are_refused() {
    assert_eq!(HttpRequest::from_string(String::new()).err(), Some("Invalid request format"));
    assert_eq!(
        HttpRequest::from_string("GET /\r\nHost: x\r\n".to_string()).err(),
        Some("Invalid request format")
    );
    assert_eq!(
        HttpRequest::from_string("GET / HTTP/1.1\r\nHost:x\r\n".to_string()).err(),
        Some("Invalid header format")
    );
}

#[test]
fn update_replaces_request_line_and_adds_new_headers() {
    let mut req =
        HttpRequest::from_string("GET / HTTP/1.1\r\nHost: a\r\n".to_string()).unwrap();
    req.update_structure("POST /b HTTP/2\r\nHost: b\r\nCookie: c\r\nCookie: d\r\n".to_string())
        .unwrap();
    assert_eq!(req.method, Some("POST".to_string()));
    assert_eq!(req.path, Some("/b".to_string()));
    assert_eq!(req.http_version, Some("HTTP/2".to_string()));
    assert_eq!(
        header_pairs(&req),
        vec![("Host".to_string(), "a".to_string()), ("Cookie".to_string(), "c".to_string())]
    );
}

#[test]
fn update_stops_at_a_malformed_line() {
    let mut req = HttpRequest::from_string("GET / HTTP/1.1\r\n".to_string()).unwrap();
    assert_eq!(req.update_structure("bad".to_string()), Err("Invalid request format"));
    assert_eq!(req.method, Some("GET".to_string()));
    assert_eq!(
        req.update_structure("PUT /p HTTP/1.0\r\nA: 1\r\nbroken\r\nB: 2\r\n".to_string()),
        Err("Invalid header format")
    );
    assert_eq!(req.method, Some("PUT".to_string()));
    assert_eq!(header_pairs(&req), vec![("A".to_string(), "1".to_string())]);
}

fn same_request(a: &Result<HttpRequest, &'static str>, b: &Result<HttpRequest, &'static str>) -> bool {
    match (a, b) {
        (Ok(x), Ok(y)) => {
            x.method == y.method
                && x.path == y.path
                && x.http_version == y.http_version
                && header_pairs(x) == header_pairs(y)
        }
        (Err(x), Err(y)) => x == y,
        _ => false,
    }
}

#[test]
fn nothing_after_the_first_empty_line_is_read() {
    for head in [
        "GET / HTTP/1.1\r\nHost: a",
        "GET / HTTP/1.1\r\nHost: a\r\n",
        "GET / HTTP/1.1\nHost: a\n\nX: y",
        "GET /",
        "",
        "GET / HTTP/1.1\r\nbroken",
    ] {
        for body in ["", "X: y\r\n", "not a header", "\r\n\r\nZ: z"] {
            let full = format!("{}\r\n\r\n{}", head, body);
            assert!(same_request(
                &HttpRequest::from_string(full.clone()),
                &HttpRequest::from_string(head.to_string())
            ));
        }
    }
    let with_body =
        HttpRequest::from_string("GET / HTTP/1.1\r\nHost: a\r\n\r\nCookie: c".to_string()).unwrap();
    assert_eq!(header_pairs(&with_body), vec![("Host".to_string(), "a".to_string())]);
}

#[test]
fn a_second_identical_update_changes_nothing() {
    let text = "POST /b HTTP/2\r\nHost: b\r\nCookie: c\r\nCookie: d\r\n";
    let mut req = HttpRequest::from_string("GET / HTTP/1.1\r\nHost: a\r\n".to_string()).unwrap();
    assert_eq!(req.update_structure(text.to_string()), Ok(()));
    let first = header_pairs(&req);
    assert_eq!(req.update_structure(text.to_string()), Ok(()));
    assert_eq!(req.method, Some("POST".to_string()));
    assert_eq!(req.path, Some("/b".to_string()));
    assert_eq!(req.http_version, Some("HTTP/2".to_string()));
    assert_eq!(header_pairs(&req), first);
}
