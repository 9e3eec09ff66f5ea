use fscache::website::{
    create_bad_request_error, ok_binary_response, ok_text_response, read_failed_response,
    RequestAction, Response, SendMethod, Website,
};

fn site() -> Website {
    Website::new("site".to_string())
}

fn expect_ok(r: Result<(SendMethod, String), String>) -> (SendMethod, String) {
    match r {
        Ok(p) => p,
        Err(m) => panic!("expected a resolved resource, got: {}", m),
    }
}

#[test]
fn resolves_scripts_layout_and_binaries() {
    let w = site();
    let (m, p) = expect_ok(w.get_resource("/app.js".to_string()));
    assert!(matches!(m, SendMethod::PlainText));
    assert_eq!(p, "site/scripts/app.js");

    let (m, p) = expect_ok(w.get_resource("/index.html".to_string()));
    assert!(matches!(m, SendMethod::PlainText));
    assert_eq!(p, "site/layout/index.html");

    let (m, p) = expect_ok(w.get_resource("/a/b/style.css".to_string()));
    assert!(matches!(m, SendMethod::PlainText));
    assert_eq!(p, "site/layout/style.css");

    let (m, p) = expect_ok(w.get_resource("/logo.png?v=2".to_string()));
    assert!(matches!(m, SendMethod::Binary));
    assert_eq!(p, "site/layout/logo.png");

    let (m, p) = expect_ok(w.get_resource("/favicon.ico".to_string()));
    assert!(matches!(m, SendMethod::Binary));
    assert_eq!(p, "site/layout/favicon.ico");
}

#[test]
fn empty_path_names_the_front_page() {
    let w = site();
    let (m, p) = expect_ok(w.get_resource("/".to_string()));
    assert!(matches!(m, SendMethod::PlainText));
    assert_eq!(p, "site/layout/index.html");
    let (_, p) = expect_ok(w.get_resource("///".to_string()));
    assert_eq!(p, "site/layout/index.html");
}

#[test]
fn unknown_extension_is_rejected() {
    let w = site();
    match w.get_resource("/secret.txt".to_string()) {
        Err(m) => assert_eq!(m, "Don't know how to look for resource at /secret.txt"),
        Ok(_) => panic!("expected a rejection"),
    }
}

#[test]
fn bad_request_text_is_exact() {
    match create_bad_request_error("oops".to_string()) {
        Response::PlainText(s) => assert_eq!(s, "HTTP/1.1 400 oops\r\n\r\n"),
        Response::Binary(_) => panic!("expected text"),
    }
}

#[test]
fn ok_responses_carry_the_content_length() {
    match ok_text_response("hello".to_string()) {
        Response::PlainText(s) => {
            assert_eq!(s, "HTTP/1.1 200 OK\r\nContent-Length: 5\r\n\r\nhello")
        }
        Response::Binary(_) => panic!("expected text"),
    }
    match ok_binary_response(vec![1u8, 2, 3]) {
        Response::Binary(b) => {
            let mut expect = b"HTTP/1.1 200 OK\r\nContent-Length: 3\r\n\r\n".to_vec();
            expect.extend_from_slice(&[1, 2, 3]);
            assert_eq!(b, expect);
        }
        Response::PlainText(_) => panic!("expected bytes"),
    }
    match read_failed_response("denied".to_string()) {
        Response::PlainText(s) => {
            assert_eq!(s, "HTTP/1.1 400 Cannot open file: denied\r\n\r\n")
        }
        Response::Binary(_) => panic!("expected text"),
    }
}

#[test]
fn routes_a_get_request_to_its_file() {
    let w = site();
    match w.route_request("GET /index.html HTTP/1.1\r\nHost: x\r\n\r\n") {
        RequestAction::ReadFile(m, p) => {
            assert!(matches!(m, SendMethod::PlainText));
            assert_eq!(p, "site/layout/index.html");
        }
        RequestAction::Respond(_) => panic!("expected a file read"),
    }
}

#[test]
fn rejects_other_verbs_and_garbage() {
    let w = site();
    match w.route_request("PUT /x HTTP/1.1\r\n") {
        RequestAction::Respond(Response::PlainText(s)) => {
            assert_eq!(s, "HTTP/1.1 400 server doesn't expect a put request\r\n\r\n")
        }
        _ => panic!("expected a rejection"),
    }
    match w.route_request("FROB /x HTTP/1.1\r\n") {
        RequestAction::Respond(Response::PlainText(s)) => {
            assert_eq!(s, "HTTP/1.1 400 what are you even trying to do\r\n\r\n")
        }
        _ => panic!("expected a rejection"),
    }
    match w.route_request("garbage\r\n") {
        RequestAction::Respond(Response::PlainText(s)) => {
            assert_eq!(s, "HTTP/1.1 400 Badly formatted HTTP request.\r\n\r\n")
        }
        _ => panic!("expected a rejection"),
    }
    match w.route_request("GET /nope HTTP/1.1\r\n") {
        RequestAction::Respond(Response::PlainText(s)) => assert_eq!(
            s,
            "HTTP/1.1 400 Cannot handle GET Request. Don't know how to look for resource at /nope\r\n\r\n"
        ),
        _ => panic!("expected a rejection"),
    }
}

#[test]
fn humours_the_joke_version() {
    let w = site();
    match w.route_request("GET / HTTP/6.9\r\n") {
        RequestAction::Respond(Response::PlainText(s)) => {
            assert_eq!(s, "HTTP/6.9 420 nice 👌\r\n\r\n")
        }
        _ => panic!("expected the joke reply"),
    }
}
