use ilium::client::{ws_handle, Handle, Ready, Task, RECONNECT_INTERVAL, RECONNECT_LIMIT};
use ilium::info::StateInfo;
use ilium::url::{normalize_url, replace_all, Location};

fn page() -> Location {
    Location { protocol: "https:".to_string(), host: "play.example:8443".to_string(), pathname: "/games/chess".to_string() }
}

fn handle() -> Handle<u32> {
    ws_handle("/ws", &page())
}

#[test]
fn a_full_address_stands_as_it_is() {
    assert_eq!(normalize_url("ws://a.example/ws", &page()), "ws://a.example/ws");
    assert_eq!(normalize_url("wss://a.example/ws", &page()), "wss://a.example/ws");
}

#[test]
fn an_address_without_scheme_gets_the_sockets_scheme() {
    assert_eq!(normalize_url("//a.example/ws", &page()), "wss://a.example/ws");
    let plain = Location { protocol: "http:".to_string(), ..page() };
    assert_eq!(normalize_url("//a.example/ws", &plain), "ws://a.example/ws");
}

#[test]
fn a_path_gets_scheme_and_host() {
    assert_eq!(normalize_url("/ws", &page()), "wss://play.example:8443/ws");
}

#[test]
fn a_relative_address_is_taken_from_the_pages_path() {
    assert_eq!(normalize_url("ws", &page()), "wss://play.example:8443/games/chess/ws");
    let dir = Location { pathname: "/games/".to_string(), ..page() };
    assert_eq!(normalize_url("ws", &dir), "wss://play.example:8443/games/ws");
    let root = Location { pathname: String::new(), ..page() };
    assert_eq!(normalize_url("", &root), "wss://play.example:8443/");
}

#[test]
fn every_occurrence_is_replaced_from_the_left() {
    assert_eq!(replace_all("http:", "http", "ws"), "ws:");
    assert_eq!(replace_all("https:", "http", "ws"), "wss:");
    assert_eq!(replace_all("httphttp", "http", "ws"), "wsws");
    assert_eq!(replace_all("aaa", "aa", "b"), "ba");
    assert_eq!(replace_all("htt", "http", "ws"), "htt");
    assert_eq!(replace_all("file:", "http", "ws"), "file:");
    assert_eq!(replace_all("abc", "", "x"), "abc");
    assert_eq!(replace_all("\u{e9}http\u{e9}", "http", "\u{fc}"), "\u{e9}\u{fc}\u{e9}");
}

#[test]
fn a_new_connection_dials_at_once() {
    let h = handle();
    assert_eq!(h.url(), "wss://play.example:8443/ws");
    assert_eq!(h.ready(), Ready::Connecting);
    assert_eq!(h.attempts(), 0);
    assert!(matches!(h.info(), StateInfo::Closed));
}

#[test]
fn an_open_connection_sends() {
    let mut h = handle();
    assert_eq!(h.send(), Task::Nothing);
    h.on_open();
    assert_eq!(h.ready(), Ready::Open);
    assert_eq!(h.send(), Task::Send);
    assert_eq!(h.open(), Task::Nothing);
}

#[test]
fn the_last_word_of_the_server_is_kept() {
    let mut h = handle();
    h.on_open();
    h.on_message(Some(StateInfo::Queue));
    assert!(matches!(h.info(), StateInfo::Queue));
    h.on_message(None);
    assert!(matches!(h.info(), StateInfo::Queue));
    h.on_message(Some(StateInfo::Session(7)));
    assert!(matches!(h.info(), StateInfo::Session(7)));
}

#[test]
fn a_lost_connection_dials_again_three_times() {
    let mut h = handle();
    h.on_open();
    h.on_message(Some(StateInfo::Lobby));
    for attempt in 1..=RECONNECT_LIMIT {
        assert_eq!(h.on_close(), Task::Wait { millis: 3000 });
        assert_eq!(h.ready(), Ready::Closed);
        assert!(matches!(h.info(), StateInfo::Closed));
        assert_eq!(h.on_timer(), Task::Connect);
        assert_eq!(h.ready(), Ready::Connecting);
        assert_eq!(h.attempts(), attempt);
    }
    assert_eq!(h.on_close(), Task::Nothing);
    assert_eq!(h.on_timer(), Task::Nothing);
    assert_eq!(h.ready(), Ready::Closed);
    assert_eq!(h.attempts(), 3);
    assert_eq!(RECONNECT_INTERVAL, 3000);
}

#[test]
fn a_closed_connection_does_not_dial_again() {
    let mut h = handle();
    h.on_open();
    assert_eq!(h.close(), Task::Close);
    assert_eq!(h.on_close(), Task::Nothing);
    assert_eq!(h.on_timer(), Task::Nothing);
    assert_eq!(h.ready(), Ready::Closed);
}

#[test]
fn opening_lets_a_connection_dial_anew() {
    let mut h = handle();
    h.on_open();
    h.close();
    h.on_close();
    assert_eq!(h.open(), Task::Connect);
    assert_eq!(h.ready(), Ready::Connecting);
    assert_eq!(h.attempts(), 0);
    h.on_open();
    assert_eq!(h.on_close(), Task::Wait { millis: 3000 });
}

#[test]
fn sending_on_a_closed_connection_dials_instead() {
    let mut h = handle();
    h.on_open();
    h.close();
    h.on_close();
    assert_eq!(h.send(), Task::Connect);
    assert_eq!(h.ready(), Ready::Connecting);
    assert_eq!(h.send(), Task::Nothing);
}

#[test]
fn a_timer_that_nobody_waits_for_does_nothing() {
    let mut h = handle();
    assert_eq!(h.on_timer(), Task::Nothing);
    h.on_open();
    assert_eq!(h.on_close(), Task::Wait { millis: 3000 });
    assert_eq!(h.open(), Task::Connect);
    assert_eq!(h.on_timer(), Task::Nothing);
    assert_eq!(h.attempts(), 0);
}
