use subwash::settings::resolve_listen_addr;
use subwash::settings::resolve_refresh_interval;
use subwash::settings::said_text;

#[test]
fn the_environment_wins() {
    assert_eq!(resolve_listen_addr(Some(" 0.0.0.0:1 "), Some("b:2")), "0.0.0.0:1");
    assert_eq!(resolve_listen_addr(Some("a:1"), None), "a:1");
}

#[test]
fn a_blank_address_says_nothing() {
    assert_eq!(resolve_listen_addr(Some(" \t"), Some("\nb:2 ")), "b:2");
    assert_eq!(resolve_listen_addr(Some(""), Some("")), "127.0.0.1:5000");
    assert_eq!(resolve_listen_addr(None, Some("  ")), "127.0.0.1:5000");
}

#[test]
fn there_is_always_an_address() {
    assert_eq!(resolve_listen_addr(None, None), "127.0.0.1:5000");
    assert_eq!(resolve_listen_addr(None, Some("c:3")), "c:3");
}

#[test]
fn refreshes_are_off_unless_asked_for() {
    assert_eq!(resolve_refresh_interval(None), 0);
    assert_eq!(resolve_refresh_interval(Some(0)), 0);
    assert_eq!(resolve_refresh_interval(Some(900)), 900);
}

#[test]
fn a_setting_says_something_or_nothing() {
    assert_eq!(said_text(Some(" a ")), Some("a"));
    assert_eq!(said_text(Some(" \n")), None);
    assert_eq!(said_text(None), None);
}
