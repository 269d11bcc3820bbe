use netscape_cookie::export::{export_record, EARLIEST_INSTANT, LATEST_INSTANT};
use netscape_cookie::text::decode;
use netscape_cookie::{parse, parse_bytes, to_cookie_jar, CookieRecord, Cookies};

fn cookie(domain: &str, name: &str, value: &str, expiration: Option<i64>) -> CookieRecord {
    CookieRecord {
        domain: domain.as_bytes().to_vec(),
        path: b"/".to_vec(),
        secure: false,
        expiration,
        name: name.as_bytes().to_vec(),
        value: value.as_bytes().to_vec(),
    }
}

#[test]
fn exported_cookie_has_every_attribute() {
    let jar = parse("example.com\tFALSE\t/p\tTRUE\t1700000000\tsession\tabc123").expect("accepted");
    let out = to_cookie_jar(&jar).expect("can be handed on");
    assert_eq!(out.iter().count(), 1);
    let c = out.get("session").expect("cookie by name");
    assert_eq!(c.name(), "session");
    assert_eq!(c.value(), "abc123");
    assert_eq!(c.domain(), Some("example.com"));
    assert_eq!(c.path(), Some("/p"));
    assert_eq!(c.secure(), Some(true));
    assert_eq!(c.expires_datetime().map(|t| t.unix_timestamp()), Some(1700000000));
}

#[test]
fn exported_session_cookie_has_no_instant() {
    let jar = parse("example.com\tFALSE\t/\tFALSE\t0\tid\txyz").expect("accepted");
    let out = to_cookie_jar(&jar).expect("can be handed on");
    let c = out.get("id").expect("cookie by name");
    assert_eq!(c.value(), "xyz");
    assert_eq!(c.secure(), Some(false));
    assert!(c.expires_datetime().is_none());
}

#[test]
fn export_of_empty_jar_is_empty() {
    let out = to_cookie_jar(&Cookies::new()).expect("nothing to refuse");
    assert_eq!(out.iter().count(), 0);
}

#[test]
fn export_keeps_the_later_cookie_of_one_name() {
    let mut jar = Cookies::new();
    jar.add(cookie("a.com", "n", "first", None));
    jar.add(cookie("b.com", "n", "second", None));
    jar.add(cookie("a.com", "m", "third", None));
    assert_eq!(jar.len(), 3);
    let out = to_cookie_jar(&jar).expect("can be handed on");
    assert_eq!(out.iter().count(), 2);
    assert_eq!(out.get("n").map(|c| c.value()), Some("second"));
    assert_eq!(out.get("n").and_then(|c| c.domain()), Some("b.com"));
    assert_eq!(out.get("m").map(|c| c.value()), Some("third"));
}

#[test]
fn export_refuses_bytes_that_are_no_text() {
    let jar = parse_bytes(b"d\tFALSE\t/\tFALSE\t1\tn\t\xff\xfe").expect("accepted");
    assert_eq!(jar.record(0).value, vec![0xffu8, 0xfe]);
    assert!(to_cookie_jar(&jar).is_none());
}

#[test]
fn export_refuses_instants_out_of_range() {
    for t in [LATEST_INSTANT + 1, EARLIEST_INSTANT - 1, i64::MAX, i64::MIN] {
        let mut jar = Cookies::new();
        jar.add(cookie("d", "n", "v", Some(t)));
        assert!(to_cookie_jar(&jar).is_none());
    }
}

#[test]
fn export_accepts_the_bounds() {
    assert_eq!(EARLIEST_INSTANT, -62135596800);
    assert_eq!(LATEST_INSTANT, 253402300799);
    for t in [LATEST_INSTANT, EARLIEST_INSTANT, -1, 1] {
        let mut jar = Cookies::new();
        jar.add(cookie("d", "n", "v", Some(t)));
        let out = to_cookie_jar(&jar).expect("in range");
        let c = out.get("n").expect("cookie by name");
        assert_eq!(c.expires_datetime().map(|i| i.unix_timestamp()), Some(t));
    }
}

#[test]
fn export_record_leaves_the_jar_alone_on_refusal() {
    let mut out = cookie::CookieJar::new();
    assert!(export_record(&mut out, &cookie("d", "n", "v", Some(5))));
    assert!(!export_record(&mut out, &cookie("d", "n", "w", Some(i64::MAX))));
    assert_eq!(out.iter().count(), 1);
    assert_eq!(out.get("n").map(|c| c.value()), Some("v"));
}

#[test]
fn decode_gives_the_text() {
    assert_eq!(decode(b"abc"), Some("abc"));
    assert_eq!(decode("caf\u{e9}".as_bytes()), Some("caf\u{e9}"));
    assert_eq!(decode(b""), Some(""));
    assert_eq!(decode(b"\xc3"), None);
}

#[test]
fn text_input_can_be_handed_on() {
    let jar = parse("d\u{e9}\tFALSE\t/\u{e9}\tFALSE\t1\tn\u{e9}\tcaf\u{e9}\n").expect("accepted");
    let out = to_cookie_jar(&jar).expect("text stays text");
    let c = out.get("n\u{e9}").expect("cookie by name");
    assert_eq!(c.value(), "caf\u{e9}");
    assert_eq!(c.domain(), Some("d\u{e9}"));
    assert_eq!(c.path(), Some("/\u{e9}"));
}
