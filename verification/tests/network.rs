use apple_specs::network::{start_fetch, FetchAction, FetchEvent, Robots};

fn response(status: u16, text: &str, location: Option<Result<String, String>>, ct: &str) -> FetchEvent {
    FetchEvent::Response { status, status_text: text.into(), location, content_type: ct.into() }
}

#[test]
fn transient_errors_are_retried_three_times() {
    let robots = Robots::default();
    let (f, a) = start_fetch("https://www.apple.com/tw/mac/", &robots);
    let mut f = f.unwrap();
    assert!(matches!(a, FetchAction::Send { ref url, backoff: 1 } if url == "https://www.apple.com/tw/mac/"));
    assert!(matches!(f.step(&robots, response(503, "503 Service Unavailable", None, "")), FetchAction::Send { backoff: 2, .. }));
    assert!(matches!(f.step(&robots, FetchEvent::SendError("timeout".into())), FetchAction::Send { backoff: 4, .. }));
    assert!(matches!(f.step(&robots, FetchEvent::SendError("timeout".into())), FetchAction::Fail(ref e) if e == "timeout"));
}

#[test]
fn permanent_errors_and_wrong_content_fail() {
    let robots = Robots::default();
    let (f, _) = start_fetch("https://www.apple.com/tw/mac/", &robots);
    let mut f = f.unwrap();
    assert!(matches!(f.step(&robots, response(404, "404 Not Found", None, "")), FetchAction::Fail(ref e) if e == "HTTP 404 Not Found"));
    let (f, _) = start_fetch("https://www.apple.com/tw/mac/", &robots);
    let mut f = f.unwrap();
    assert!(matches!(f.step(&robots, response(200, "200 OK", None, "application/pdf")), FetchAction::Fail(ref e) if e == "不支援內容類型 application/pdf"));
    let (f, _) = start_fetch("https://www.apple.com/robots.txt", &robots);
    let mut f = f.unwrap();
    assert!(matches!(f.step(&robots, response(200, "200 OK", None, "text/plain")), FetchAction::Read));
    assert!(matches!(f.step(&robots, FetchEvent::Chunk(7_999_999)), FetchAction::Read));
    assert!(matches!(f.step(&robots, FetchEvent::Chunk(2)), FetchAction::Fail(ref e) if e == "網頁超過 8 MB 上限"));
}

#[test]
fn redirects_are_checked_before_following() {
    let robots = Robots::default();
    let (f, _) = start_fetch("https://www.apple.com/tw/mac/", &robots);
    let mut f = f.unwrap();
    let a = f.step(&robots, response(302, "302 Found", Some(Ok("http://outside.invalid/".into())), ""));
    assert!(matches!(a, FetchAction::Fail(ref e) if e.contains("拒絕")));
    let a = f.step(&robots, response(301, "301 Moved Permanently", Some(Ok("/tw/imac/".into())), ""));
    assert!(matches!(a, FetchAction::Send { ref url, backoff: 1 } if url == "https://www.apple.com/tw/imac/"));
    assert!(matches!(f.step(&robots, response(200, "200 OK", None, "text/html; charset=utf-8")), FetchAction::Read));
    assert!(matches!(f.step(&robots, FetchEvent::End), FetchAction::Done(ref u) if u == "https://www.apple.com/tw/imac/"));
    assert!(matches!(f.step(&robots, response(302, "302 Found", None, "")), FetchAction::Fail(ref e) if e == "redirect without location"));
}

#[test]
fn redirect_chains_are_bounded() {
    let robots = Robots::default();
    let (f, _) = start_fetch("https://www.apple.com/tw/mac/", &robots);
    let mut f = f.unwrap();
    for _ in 0..5 {
        let a = f.step(&robots, response(302, "302 Found", Some(Ok("/tw/mac/".into())), ""));
        assert!(matches!(a, FetchAction::Send { .. }));
    }
    let a = f.step(&robots, response(302, "302 Found", Some(Ok("/tw/mac/".into())), ""));
    assert!(matches!(a, FetchAction::Fail(ref e) if e == "重新導向次數超過上限"));
}

#[test]
fn robots_and_boundary_are_checked_first() {
    let robots = Robots::parse("User-agent: *\nDisallow: /tw/shop/\n");
    assert!(matches!(start_fetch("https://www.apple.com/tw/shop/bag", &robots).1, FetchAction::Fail(ref e) if e == "robots.txt 不允許此路徑"));
    assert!(matches!(start_fetch("https://example.com/tw/", &robots).1, FetchAction::Fail(ref e) if e == "拒絕非 Apple 台灣 URL: https://example.com/tw/"));
    assert!(matches!(start_fetch("not a url", &robots).1, FetchAction::Fail(ref e) if e == "relative URL without a base"));
}

#[test]
fn robots_rules_choose_the_most_specific_match() {
    let r = Robots::parse("# comment\nuser-agent: *\nallow: /tw/a$\ndisallow: /tw/a\nDisallow:\n\nUser-agent: other\nDisallow: /\n");
    assert!(r.permits("/tw/a"));
    assert!(!r.permits("/tw/ab"));
    assert!(r.permits("/tw/b"));
    assert_eq!(r.rules.len(), 2);
    let none = Robots::parse("Disallow: /\n");
    assert!(none.rules.is_empty());
    assert!(none.permits("/anything"));
}
