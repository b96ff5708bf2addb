use tilemap_gen::network_handler::{is_whitespace, Method, Request};

#[test]
fn parse_get_index() {
    let req = Request::parse(b"GET / HTTP/1.1\r\nHost: localhost\r\n\r\n").unwrap();
    assert_eq!(req.method, Method::GET);
    assert_eq!(req.path, "/");
    assert_eq!(req.body, "");
}

#[test]
fn parse_post_with_body() {
    let req = Request::parse(b"POST /generate HTTP/1.1\r\nContent-Length: 4\r\n\r\nBEEF").unwrap();
    assert_eq!(req.method, Method::POST);
    assert_eq!(req.path, "/generate");
    assert_eq!(req.body, "BEEF");
}

#[test]
fn body_stops_at_next_blank_line() {
    let req = Request::parse(b"PUT /x\r\n\r\nfirst\r\n\r\nsecond").unwrap();
    assert_eq!(req.method, Method::PUT);
    assert_eq!(req.body, "first");
}

#[test]
fn body_keeps_trailing_zeros() {
    let mut buffer = [0u8; 32];
    let text = b"POST /generate\r\n\r\nAB";
    buffer[..text.len()].copy_from_slice(text);
    let req = Request::parse(&buffer).unwrap();
    assert_eq!(req.body.trim_matches('\0'), "AB");
    assert_eq!(req.body.len(), 32 - text.len() + 2);
}

#[test]
fn unknown_method() {
    let req = Request::parse(b"BREW /pot HTTP/1.1\r\n\r\n").unwrap();
    assert_eq!(req.method, Method::UNKNOWN);
    assert_eq!(req.path, "/pot");
}

#[test]
fn extra_whitespace_between_words() {
    let req = Request::parse(b"  DELETE \t /item  HTTP/1.1\r\n").unwrap();
    assert_eq!(req.method, Method::DELETE);
    assert_eq!(req.path, "/item");
}

#[test]
fn one_word_is_not_a_request() {
    assert!(Request::parse(b"GET\r\n\r\n").is_none());
    assert!(Request::parse(b"GET").is_none());
}

#[test]
fn empty_head_is_not_a_request() {
    assert!(Request::parse(b"").is_none());
    assert!(Request::parse(b"\r\n\r\nGET / HTTP/1.1").is_none());
    assert!(Request::parse(b"\nGET /").is_none());
}

#[test]
fn invalid_utf8_is_not_a_request() {
    assert!(Request::parse(&[0x47, 0x45, 0x54, 0x20, 0x2f, 0xff]).is_none());
}

#[test]
fn unicode_whitespace_separates_words() {
    let req = Request::parse("PATCH\u{3000}/päth".as_bytes()).unwrap();
    assert_eq!(req.method, Method::PATCH);
    assert_eq!(req.path, "/päth");
}

#[test]
fn method_from_str() {
    assert_eq!("GET".parse::<Method>(), Ok(Method::GET));
    assert_eq!("POST".parse::<Method>(), Ok(Method::POST));
    assert_eq!("PUT".parse::<Method>(), Ok(Method::PUT));
    assert_eq!("DELETE".parse::<Method>(), Ok(Method::DELETE));
    assert_eq!("PATCH".parse::<Method>(), Ok(Method::PATCH));
    assert_eq!("get".parse::<Method>(), Ok(Method::UNKNOWN));
    assert_eq!("GETS".parse::<Method>(), Ok(Method::UNKNOWN));
    assert_eq!("".parse::<Method>(), Ok(Method::UNKNOWN));
}

#[test]
fn whitespace_matches_std() {
    for u in 0u32..0x3100 {
        if let Some(c) = char::from_u32(u) {
            assert_eq!(is_whitespace(c), c.is_whitespace(), "{u:x}");
        }
    }
}
