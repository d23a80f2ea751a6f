use runtime_with_waker::http::{get_request, Http, ReadAction, ReadEvent};

#[test]
fn request_names_the_path() {
    assert_eq!(
        get_request("/600/HelloWorld1"),
        "GET /600/HelloWorld1 HTTP/1.1\r\nHost: localhost\r\nConnection: close\r\n\r\n"
    );
}

#[test]
fn start_hands_out_the_request_once() {
    let mut f = Http::get("/400/HelloWorld2");
    assert!(!f.is_started());
    let req = f.start();
    assert!(f.is_started());
    assert_eq!(req, "GET /400/HelloWorld2 HTTP/1.1\r\nHost: localhost\r\nConnection: close\r\n\r\n");
}

#[test]
fn bytes_accumulate_until_end_of_stream() {
    let mut f = Http::get("/");
    let chunk = b"Hello, world!!!!";
    assert!(matches!(f.on_read(ReadEvent::Read(7), chunk), ReadAction::ReadAgain));
    assert!(matches!(f.on_read(ReadEvent::WouldBlock, chunk), ReadAction::Suspend));
    assert!(matches!(f.on_read(ReadEvent::Interrupted, chunk), ReadAction::ReadAgain));
    assert!(matches!(f.on_read(ReadEvent::Read(6), &chunk[7..]), ReadAction::ReadAgain));
    match f.on_read(ReadEvent::Read(0), chunk) {
        ReadAction::Finish(s) => assert_eq!(s, "Hello, world!"),
        _ => panic!("expected the response"),
    }
}

#[test]
fn invalid_utf8_is_replaced() {
    let mut f = Http::get("/");
    assert!(matches!(f.on_read(ReadEvent::Read(3), &[b'o', 0xff, b'k']), ReadAction::ReadAgain));
    match f.on_read(ReadEvent::Read(0), &[]) {
        ReadAction::Finish(s) => assert_eq!(s, "o\u{fffd}k"),
        _ => panic!("expected the response"),
    }
}

#[test]
fn empty_response_is_empty_text() {
    let mut f = Http::get("/");
    match f.on_read(ReadEvent::Read(0), &[0u8; 4]) {
        ReadAction::Finish(s) => assert_eq!(s, ""),
        _ => panic!("expected the response"),
    }
}

#[test]
fn other_read_errors_fail() {
    let mut f = Http::get("/");
    assert!(matches!(f.on_read(ReadEvent::Failed, &[]), ReadAction::Fail));
}
