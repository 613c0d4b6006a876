//! Addressing, requests, sockets and clients.

use nitro::introspect::clients::watch_matches;
use nitro::introspect::request::{rest_after, take_line};
use nitro::introspect::sockets::{parse_socket_name, resolve_dir, sanitize};
use nitro::introspect::text::{addressable, escape, parse_indexed, unescape};

#[test]
fn addressable_names_are_identifier_like() {
    assert!(addressable("ok"));
    assert!(addressable("first-name"));
    assert!(!addressable(""));
    assert!(!addressable("Hello, nitro"));
    assert!(!addressable("a/b"));
    assert!(!addressable("a[0]"));
}

#[test]
fn escaping_round_trips() {
    for s in ["plain", "two\twords", "a\nb", "back\\slash", ""] {
        assert_eq!(unescape(&escape(s)), s, "{s:?}");
    }
    // Unknown escapes keep their backslash rather than vanishing.
    assert_eq!(unescape("\\q"), "\\q");
    assert_eq!(unescape("trailing\\"), "trailing\\");
}

#[test]
fn indexed_segments_parse() {
    assert_eq!(parse_indexed("button[2]"), Some(("button".to_owned(), 2)));
    assert_eq!(parse_indexed("label"), Some(("label".to_owned(), 0)));
    assert_eq!(parse_indexed("button[x]"), None);
    assert_eq!(parse_indexed("button[2"), None);
}

#[test]
fn socket_names_round_trip() {
    assert_eq!(
        parse_socket_name("hello-dialog.1234.sock"),
        Some(("hello-dialog".to_owned(), 1234))
    );
    assert_eq!(parse_socket_name("nope.sock"), None);
    assert_eq!(parse_socket_name("hello.sock.1234"), None);
    assert_eq!(sanitize("my app/1"), "my_app_1");
    assert_eq!(sanitize(""), "app");
}

#[test]
fn watch_covers_a_subtree_but_not_a_prefix_of_a_name() {
    assert!(watch_matches("*", "window/ok"));
    assert!(watch_matches("window", "window/ok"));
    assert!(watch_matches("window/row[0]", "window/row[0]/ok"));
    assert!(watch_matches("window/ok", "window/ok"));
    // `window/ok` must not match `window/okay`.
    assert!(!watch_matches("window/ok", "window/okay"));
    assert!(!watch_matches("window/ok", "window/cancel"));
}

#[test]
fn the_socket_directory_follows_the_environment() {
    let over = "/tmp/nitro-apps-test";
    assert_eq!(resolve_dir(Some(over), Some("/run/user/1"), 7), over);
    assert_eq!(
        resolve_dir(None, Some("/run/user/1"), 7),
        "/run/user/1/nitro/apps"
    );
    // A relative runtime dir is not usable, and falls back.
    assert_eq!(resolve_dir(None, Some("relative"), 7), "/tmp/nitro-7/apps");
    assert_eq!(resolve_dir(None, None, 7), "/tmp/nitro-7/apps");
}

#[test]
fn take_line_splits_and_keeps_the_rest() {
    let mut buf = b"first\nsecond".to_vec();
    assert_eq!(take_line(&mut buf).as_deref(), Some("first"));
    assert_eq!(take_line(&mut buf), None);
    assert_eq!(buf, b"second");
}

#[test]
fn rest_after_keeps_spaces_in_the_value() {
    assert_eq!(
        rest_after(
            "set window/f text hello  world",
            &["set", "window/f", "text"]
        ),
        "hello  world"
    );
    assert_eq!(
        rest_after("do window/ok click", &["do", "window/ok", "click"]),
        ""
    );
    // The value may start with the property's own name: each word is
    // stripped once, not every occurrence.
    assert_eq!(
        rest_after("set w text texture", &["set", "w", "text"]),
        "texture"
    );
    assert_eq!(rest_after("set w text text", &["set", "w", "text"]), "text");
    // A value with a tab in it arrives escaped and comes back whole.
    assert_eq!(
        unescape(&rest_after(
            &format!("set w text {}", escape("a\tb")),
            &["set", "w", "text"]
        )),
        "a\tb"
    );
}
