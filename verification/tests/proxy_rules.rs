use crabcage::proxy::{is_hop_header_name, method_kind_from_upper};
use crabcage::proxy::{
    bad_gateway_response, bad_request_response, blocked_response, domain_allowed,
    format_http_response, forwarded_headers, is_allowed, method_kind_of, parse_connect_host,
    parse_host_header, parse_method, parse_request_url, parse_url_host, plan_request, route_request,
    tunnel_established_response, ConnectionAction, HttpMethod, PROXY_PORT,
};

fn list(items: &[&str]) -> Vec<String> {
    items.iter().map(|s| s.to_string()).collect()
}

#[test]
fn subdomain_of_whitelisted_domain_is_allowed() {
    assert!(is_allowed("en.wikipedia.org", &list(&["wikipedia.org"])));
    assert!(is_allowed("wikipedia.org", &list(&["wikipedia.org"])));
}

#[test]
fn lookalike_domain_is_blocked() {
    assert!(!is_allowed("notwikipedia.org", &list(&["wikipedia.org"])));
    assert!(!is_allowed("wikipedia.org.evil.com", &list(&["wikipedia.org"])));
    assert!(!is_allowed("wikipedia.org", &list(&["en.wikipedia.org"])));
}

#[test]
fn port_case_scheme_and_path_are_ignored() {
    assert!(is_allowed("wikipedia.org:443", &list(&["wikipedia.org"])));
    assert!(is_allowed("EN.Wikipedia.ORG", &list(&["wikipedia.org"])));
    assert!(is_allowed("example.com", &list(&["https://Example.com/path"])));
    assert!(is_allowed("example.com", &list(&["http://example.com"])));
    assert!(is_allowed("api.example.com:8443", &list(&["other.org", "example.com/x"])));
}

#[test]
fn empty_whitelist_blocks_everything() {
    assert!(!is_allowed("example.com", &[]));
    assert!(!is_allowed("", &[]));
}

#[test]
fn adding_entries_keeps_allowed_hosts() {
    let small = list(&["example.com"]);
    let large = list(&["example.com", "other.org"]);
    assert!(is_allowed("a.example.com", &small));
    assert!(is_allowed("a.example.com", &large));
}

#[test]
fn domain_allowed_takes_lower_case_input() {
    assert!(domain_allowed("en.wikipedia.org:443", &list(&["wikipedia.org"])));
    assert!(!domain_allowed("EN.WIKIPEDIA.ORG", &list(&["wikipedia.org"])));
}

#[test]
fn connect_line_is_parsed() {
    assert_eq!(parse_connect_host("CONNECT example.com:443 HTTP/1.1"), Some("example.com:443".to_string()));
    assert_eq!(parse_connect_host("connect  a.b:1"), Some("a.b:1".to_string()));
    assert_eq!(parse_connect_host("CONNECT"), None);
    assert_eq!(parse_connect_host("GET / HTTP/1.1"), None);
}

#[test]
fn host_header_is_found_trimmed_without_port() {
    let raw = "GET / HTTP/1.1\r\nAccept: */*\r\nHost:  Example.com:8080 \r\n\r\n";
    assert_eq!(parse_host_header(raw), Some("Example.com".to_string()));
    assert_eq!(parse_host_header("GET / HTTP/1.1\nHOST:x\n"), Some("x".to_string()));
    assert_eq!(parse_host_header("GET / HTTP/1.1\r\nAccept: */*\r\n"), None);
}

#[test]
fn request_line_parts() {
    assert_eq!(parse_request_url("GET http://example.com/path HTTP/1.1"), Some("http://example.com/path".to_string()));
    assert_eq!(parse_request_url("GET"), None);
    assert_eq!(parse_method("POST /x HTTP/1.1"), "POST");
    assert_eq!(parse_method("   "), "GET");
}

#[test]
fn forwarding_method_is_chosen_by_upper_case_name() {
    assert_eq!(method_kind_of("post"), HttpMethod::Post);
    assert_eq!(method_kind_of("Put"), HttpMethod::Put);
    assert_eq!(method_kind_of("DELETE"), HttpMethod::Delete);
    assert_eq!(method_kind_of("patch"), HttpMethod::Patch);
    assert_eq!(method_kind_of("HEAD"), HttpMethod::Head);
    assert_eq!(method_kind_of("OPTIONS"), HttpMethod::Get);
    assert_eq!(method_kind_of("get"), HttpMethod::Get);
}

#[test]
fn proxy_headers_are_not_forwarded() {
    let raw = "GET http://x/ HTTP/1.1\r\nHost: x\r\nAccept: */*\r\nProxy-Connection: keep-alive\r\nX-A:  b \r\nno colon\r\nTE: trailers\r\n\r\n";
    let h = forwarded_headers(raw);
    assert_eq!(h, vec![("Accept".to_string(), "*/*".to_string()), ("X-A".to_string(), "b".to_string())]);
    assert_eq!(forwarded_headers(""), vec![]);
}

#[test]
fn blocked_response_matches_the_page() {
    let domain = "evil.com";
    let body = format!(
        "CrabCage: '{}' ist nicht in deiner Erlaubnisliste.\nF\u{fc}ge diese Domain unter Berechtigungen \u{2192} Websites hinzu, um den Zugriff zu erlauben.",
        domain
    );
    let expected = format!(
        "HTTP/1.1 403 Forbidden\r\nContent-Type: text/plain; charset=utf-8\r\nContent-Length: {}\r\nX-CrabCage: blocked\r\n\r\n{}",
        body.len(),
        body
    )
    .into_bytes();
    assert_eq!(blocked_response(domain), expected);
    let text = String::from_utf8(blocked_response("a.b")).unwrap();
    assert!(text.contains("Content-Length: 139\r\n"));
}

#[test]
fn fixed_answers() {
    assert_eq!(tunnel_established_response(), b"HTTP/1.1 200 Connection Established\r\n\r\n".to_vec());
    assert_eq!(bad_gateway_response(), b"HTTP/1.1 502 Bad Gateway\r\n\r\n".to_vec());
    assert_eq!(bad_request_response(), b"HTTP/1.1 400 Bad Request\r\n\r\n".to_vec());
    assert_eq!(PROXY_PORT, 18080);
}

#[test]
fn relayed_response_is_formatted() {
    let headers = vec![
        ("content-type".to_string(), Some("text/html".to_string())),
        ("x-bin".to_string(), None),
    ];
    let out = format_http_response(200, Some("OK".to_string()), &headers, b"hi");
    assert_eq!(out, b"HTTP/1.1 200 OK\r\ncontent-type: text/html\r\nContent-Length: 2\r\n\r\nhi".to_vec());
    let out = format_http_response(599, None, &[], b"");
    assert_eq!(out, b"HTTP/1.1 599 \r\nContent-Length: 0\r\n\r\n".to_vec());
}

#[test]
fn allowed_connect_is_tunneled() {
    let plan = route_request("CONNECT api.example.com:443 HTTP/1.1\r\nHost: api.example.com:443\r\n\r\n", &list(&["example.com"]));
    let ev = plan.event.unwrap();
    assert_eq!(ev.domain, "api.example.com");
    assert_eq!(ev.action, "HTTPS");
    assert!(ev.allowed);
    match plan.action {
        ConnectionAction::Tunnel { host_port } => assert_eq!(host_port, "api.example.com:443"),
        _ => panic!("expected a tunnel"),
    }
}

#[test]
fn refused_connect_is_blocked() {
    let plan = route_request("connect evil.com:443 HTTP/1.1\r\n\r\n", &list(&["example.com"]));
    let ev = plan.event.unwrap();
    assert_eq!(ev.domain, "evil.com");
    assert!(!ev.allowed);
    match plan.action {
        ConnectionAction::Block { domain } => assert_eq!(domain, "evil.com"),
        _ => panic!("expected a block"),
    }
}

#[test]
fn connect_without_target_is_closed() {
    let plan = route_request("CONNECT\r\n\r\n", &list(&["example.com"]));
    assert!(plan.event.is_none());
    assert!(matches!(plan.action, ConnectionAction::Close));
}

#[test]
fn allowed_plain_request_is_forwarded() {
    let raw = "post http://example.com/form HTTP/1.1\r\nHost: example.com\r\nContent-Type: text/plain\r\nConnection: close\r\n\r\n";
    let plan = route_request(raw, &list(&["example.com"]));
    let ev = plan.event.unwrap();
    assert_eq!(ev.domain, "example.com");
    assert_eq!(ev.action, "HTTP post");
    assert!(ev.allowed);
    match plan.action {
        ConnectionAction::Forward { url, method, headers } => {
            assert_eq!(url, "http://example.com/form");
            assert_eq!(method, HttpMethod::Post);
            assert_eq!(headers, vec![("Content-Type".to_string(), "text/plain".to_string())]);
        }
        _ => panic!("expected forwarding"),
    }
}

#[test]
fn relative_url_is_a_bad_request() {
    let plan = route_request("GET /index.html HTTP/1.1\r\nHost: example.com\r\n\r\n", &list(&["example.com"]));
    assert!(plan.event.unwrap().allowed);
    assert!(matches!(plan.action, ConnectionAction::BadRequest));
}

#[test]
fn relative_request_without_host_is_blocked_with_empty_domain() {
    let plan = route_request("GET /index.html HTTP/1.1\r\n\r\n", &list(&["example.com"]));
    let ev = plan.event.unwrap();
    assert_eq!(ev.domain, "");
    assert_eq!(ev.action, "HTTP GET");
    assert!(!ev.allowed);
    match plan.action {
        ConnectionAction::Block { domain } => assert_eq!(domain, ""),
        _ => panic!("expected a block"),
    }
}

#[test]
fn absolute_request_without_host_header_goes_by_its_url() {
    let plan = route_request("GET http://example.com/ HTTP/1.1\r\n\r\n", &list(&["example.com"]));
    let ev = plan.event.unwrap();
    assert_eq!(ev.domain, "example.com");
    assert!(ev.allowed);
    match plan.action {
        ConnectionAction::Forward { url, .. } => assert_eq!(url, "http://example.com/"),
        _ => panic!("expected forwarding"),
    }
}

#[test]
fn url_host_decides_over_an_admitted_host_header() {
    let plan = route_request(
        "GET http://evil.com/ HTTP/1.1\r\nHost: example.com\r\n\r\n",
        &list(&["example.com"]),
    );
    let ev = plan.event.unwrap();
    assert_eq!(ev.domain, "evil.com");
    assert_eq!(ev.action, "HTTP GET");
    assert!(!ev.allowed);
    match plan.action {
        ConnectionAction::Block { domain } => assert_eq!(domain, "evil.com"),
        _ => panic!("expected a block"),
    }
}

#[test]
fn admitted_url_host_is_forwarded_whatever_the_host_header() {
    let plan = route_request(
        "GET http://api.example.com:8080/x HTTP/1.1\r\nHost: evil.com\r\n\r\n",
        &list(&["example.com"]),
    );
    assert_eq!(plan.event.unwrap().domain, "api.example.com");
    assert!(matches!(plan.action, ConnectionAction::Forward { .. }));
}

#[test]
fn url_without_a_host_before_further_slashes_is_blocked() {
    let plan = route_request("GET http:///evil.com/ HTTP/1.1\r\nHost: example.com\r\n\r\n", &list(&["example.com"]));
    assert!(!plan.event.unwrap().allowed);
    match plan.action {
        ConnectionAction::Block { domain } => assert_eq!(domain, "http:///evil.com/"),
        _ => panic!("expected a block"),
    }
}

#[test]
fn url_with_user_information_is_blocked() {
    let plan = route_request(
        "GET http://example.com@evil.com/ HTTP/1.1\r\nHost: example.com\r\n\r\n",
        &list(&["example.com"]),
    );
    let ev = plan.event.unwrap();
    assert_eq!(ev.domain, "http://example.com@evil.com/");
    assert!(!ev.allowed);
    match plan.action {
        ConnectionAction::Block { domain } => assert_eq!(domain, "http://example.com@evil.com/"),
        _ => panic!("expected a block"),
    }
}

#[test]
fn url_host_is_taken_from_the_authority() {
    assert_eq!(parse_url_host("http://example.com:8080/path"), Some("example.com".to_string()));
    assert_eq!(parse_url_host("https://Example.COM?q=1"), Some("Example.COM".to_string()));
    assert_eq!(parse_url_host("http://evil.com#frag"), Some("evil.com".to_string()));
    assert_eq!(parse_url_host("http://a.com\\b.com/"), Some("a.com".to_string()));
    assert_eq!(parse_url_host("http://user@evil.com/"), None);
    assert_eq!(parse_url_host("http://ev%69l.com/"), None);
    assert_eq!(parse_url_host("http:example.com"), None);
    assert_eq!(parse_url_host("example.com"), None);
    assert_eq!(parse_url_host("http://"), None);
    assert_eq!(parse_url_host("http:///evil.com/"), None);
    assert_eq!(parse_url_host("http://\\evil.com/"), None);
    assert_eq!(parse_url_host("http://:80/"), None);
}

#[test]
fn raw_bytes_are_decoded_before_routing() {
    let mut raw = b"GET http://example.com/ HTTP/1.1\r\nHost: example.com\r\nX-Bad: ".to_vec();
    raw.push(0xff);
    raw.extend_from_slice(b"\r\n\r\n");
    let plan = plan_request(&raw, &list(&["example.com"]));
    match plan.action {
        ConnectionAction::Forward { headers, .. } => {
            assert_eq!(headers, vec![("X-Bad".to_string(), "\u{fffd}".to_string())]);
        }
        _ => panic!("expected forwarding"),
    }
}

#[test]
fn pure_forms_of_the_case_dependent_rules() {
    assert_eq!(method_kind_from_upper("PATCH"), HttpMethod::Patch);
    assert_eq!(method_kind_from_upper("patch"), HttpMethod::Get);
    let name: Vec<char> = "proxy-authorization".chars().collect();
    assert!(is_hop_header_name(&name));
    let other: Vec<char> = "accept".chars().collect();
    assert!(!is_hop_header_name(&other));
    let upper: Vec<char> = "Host".chars().collect();
    assert!(!is_hop_header_name(&upper));
}
