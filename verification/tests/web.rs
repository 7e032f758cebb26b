//! Tests of request dispatch, content negotiation, ordinals and uptime text.

use hi_counter::state::State;
use hi_counter::system::HostSnapshot;
use hi_counter::system::Uptime;
use hi_counter::webserver::accepts_html;
use hi_counter::webserver::handle_request;
use hi_counter::webserver::Method;
use hi_counter::webserver::Ordinal;
use hi_counter::webserver::WebResponse;

fn ip4(a: u8, b: u8, c: u8, d: u8) -> u128 {
    0xffff_0000_0000u128
        | (a as u128) << 24
        | (b as u128) << 16
        | (c as u128) << 8
        | (d as u128)
}

fn test_state() -> State {
    State::new(
        0,
        100,
        HostSnapshot {
            ip: Some(0x7f000001),
            os_name: String::from("Test OS"),
            uname: String::from("Test kernel"),
            memory: None,
            uptime: Uptime::new(42),
        },
    )
}

#[test]
fn test_ordinal() {
    assert_eq!(Ordinal(0).to_string(), String::from("0th"));
    assert_eq!(Ordinal(1).to_string(), String::from("1st"));
    assert_eq!(Ordinal(2).to_string(), String::from("2nd"));
    assert_eq!(Ordinal(3).to_string(), String::from("3rd"));
    assert_eq!(Ordinal(4).to_string(), String::from("4th"));
    assert_eq!(Ordinal(5).to_string(), String::from("5th"));
    assert_eq!(Ordinal(6).to_string(), String::from("6th"));
    assert_eq!(Ordinal(7).to_string(), String::from("7th"));
    assert_eq!(Ordinal(8).to_string(), String::from("8th"));
    assert_eq!(Ordinal(9).to_string(), String::from("9th"));
    assert_eq!(Ordinal(10).to_string(), String::from("10th"));
    assert_eq!(Ordinal(11).to_string(), String::from("11th"));
    assert_eq!(Ordinal(12).to_string(), String::from("12th"));
    assert_eq!(Ordinal(13).to_string(), String::from("13th"));
    assert_eq!(Ordinal(22).to_string(), String::from("22nd"));
    assert_eq!(Ordinal(33).to_string(), String::from("33rd"));
    assert_eq!(Ordinal(44).to_string(), String::from("44th"));
    assert_eq!(Ordinal(100).to_string(), String::from("100th"));
    assert_eq!(Ordinal(1300).to_string(), String::from("1300th"));
    assert_eq!(Ordinal(1533).to_string(), String::from("1533rd"));
}

#[test]
fn test_ordinal_teens() {
    assert_eq!(Ordinal(111).to_string(), String::from("111th"));
    assert_eq!(Ordinal(112).to_string(), String::from("112th"));
    assert_eq!(Ordinal(113).to_string(), String::from("113th"));
    assert_eq!(Ordinal(121).to_string(), String::from("121st"));
}

#[test]
fn test_uptime_days() {
    let uptime = Uptime::new(946560);
    assert_eq!(uptime.to_string(), String::from("10d 22h 56m"));
}

#[test]
fn test_uptime_hours() {
    let uptime = Uptime::new(12345);
    assert_eq!(uptime.to_string(), String::from("3h 25m"));
}

#[test]
fn test_uptime_minutes() {
    let uptime = Uptime::new(62);
    assert_eq!(uptime.to_string(), String::from("1m"));
}

#[test]
fn test_uptime_seconds() {
    let uptime = Uptime::new(42);
    assert_eq!(uptime.to_string(), String::from("42 secs"));
}

#[test]
fn test_accept_negotiation() {
    assert!(accepts_html(Some(b"text/html")));
    assert!(accepts_html(Some(b"application/xml, text/html;q=0.9")));
    assert!(accepts_html(Some(b"TEXT/HTML")));
    assert!(accepts_html(Some(b" text/html ; q=1, text/plain")));
    assert!(!accepts_html(Some(b"text/plain")));
    assert!(!accepts_html(Some(b"xtext/html")));
    assert!(!accepts_html(Some(b"text/htmlx")));
    assert!(!accepts_html(Some(b"text/ html")));
    assert!(!accepts_html(Some(b"")));
    assert!(!accepts_html(None));
}

#[test]
fn test_get_serves_page_without_counting() {
    let mut state = test_state();
    let caller = ip4(10, 0, 0, 1);
    let response = handle_request(&mut state, &Method::Get, b"/", Some(b"text/html"), caller, 0);
    match response {
        WebResponse::Page { html, hi_count, snapshot } => {
            assert!(html);
            assert_eq!(hi_count, 0);
            assert_eq!(snapshot.os_name, "Test OS");
            assert_eq!(snapshot.ip, Some(0x7f000001));
        },
        _ => panic!("a GET of / must serve the page"),
    }
    assert_eq!(state.hi_count(), 0);

    let response = handle_request(&mut state, &Method::Head, b"/hi", None, caller, 0);
    assert_eq!(response.status(), 200);
    match response {
        WebResponse::Page { html, .. } => assert!(!html),
        _ => panic!("a HEAD of /hi must serve the page"),
    }
}

#[test]
fn test_post_counts_and_reports_rank() {
    let mut state = test_state();
    let caller = ip4(127, 0, 0, 1);
    let response = handle_request(&mut state, &Method::Post, b"/hi", None, caller, 0);
    assert_eq!(response.status(), 200);
    match response {
        WebResponse::Hello { body } => {
            assert_eq!(body, "Hello! You're the 1st person to say hi.\n");
        },
        _ => panic!("a POST to /hi must confirm the hello"),
    }
    assert_eq!(state.hi_count(), 1);

    // A deduplicated repeat still reports the current counter as the rank.
    let response = handle_request(&mut state, &Method::Post, b"/hi", None, caller, 50);
    match response {
        WebResponse::Hello { body } => {
            assert_eq!(body, "Hello! You're the 1st person to say hi.\n");
        },
        _ => panic!("a POST to /hi must confirm the hello"),
    }
    assert_eq!(state.hi_count(), 1);
}

#[test]
fn test_unknown_route_is_not_found() {
    let mut state = test_state();
    let caller = ip4(127, 0, 0, 1);
    for (method, path) in [
        (Method::Get, &b"/other"[..]),
        (Method::Post, b"/"),
        (Method::Other, b"/hi"),
        (Method::Get, b"/hi/"),
        (Method::Post, b"/hi/x"),
    ] {
        let response = handle_request(&mut state, &method, path, None, caller, 0);
        assert_eq!(response.status(), 404);
        match response {
            WebResponse::NotFound { body } => assert_eq!(body, "Not found\n"),
            _ => panic!("an unknown route must answer not-found"),
        }
    }
    assert_eq!(state.hi_count(), 0);
}
