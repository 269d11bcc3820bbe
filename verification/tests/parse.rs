use netscape_cookie::{
    parse, parse_bytes, Cookies, CookieParser, CookieRecord, Error, SyntaxError, SyntaxErrorKind,
};

fn jar_of(text: &str) -> Cookies {
    match parse(text) {
        Ok(jar) => jar,
        Err(e) => panic!("rejected: {:?}", e),
    }
}

fn syntax_error_of(text: &str) -> SyntaxError {
    match parse(text) {
        Ok(jar) => panic!("accepted with {} cookies", jar.len()),
        Err(Error::ParseError(e)) => e,
        Err(e) => panic!("not a syntax error: {:?}", e),
    }
}

#[test]
fn one_record_with_expiration() {
    let jar = jar_of("example.com\tFALSE\t/\tTRUE\t1700000000\tsession\tabc123");
    assert_eq!(jar.len(), 1);
    let r = jar.record(0);
    assert_eq!(r.domain, b"example.com".to_vec());
    assert_eq!(r.path, b"/".to_vec());
    assert!(r.secure);
    assert_eq!(r.expiration, Some(1700000000));
    assert_eq!(r.name, b"session".to_vec());
    assert_eq!(r.value, b"abc123".to_vec());
}

#[test]
fn session_cookie_has_no_expiration() {
    let jar = jar_of("example.com\tFALSE\t/\tFALSE\t0\tid\txyz");
    assert_eq!(jar.len(), 1);
    let r = jar.record(0);
    assert_eq!(r.expiration, None);
    assert!(!r.secure);
    assert_eq!(r.name, b"id".to_vec());
    assert_eq!(r.value, b"xyz".to_vec());
}

#[test]
fn malformed_expiration_is_a_syntax_error() {
    let e = syntax_error_of("example.com\tFALSE\t/\tTRUE\tNOTANUMBER\tid\tv");
    assert_eq!(e, SyntaxError { line: 1, offset: 25, kind: SyntaxErrorKind::Expiration });
}

#[test]
fn distinct_cookies_are_all_kept() {
    let text = "a.com\tFALSE\t/\tFALSE\t1\tn\t1\n\
                b.com\tFALSE\t/\tFALSE\t2\tn\t2\n\
                a.com\tFALSE\t/x\tFALSE\t3\tn\t3\n\
                a.com\tFALSE\t/\tFALSE\t4\tm\t4\n";
    let jar = jar_of(text);
    assert_eq!(jar.len(), 4);
    assert_eq!(jar.record(0).value, b"1".to_vec());
    assert_eq!(jar.record(1).value, b"2".to_vec());
    assert_eq!(jar.record(2).value, b"3".to_vec());
    assert_eq!(jar.record(3).value, b"4".to_vec());
    assert_eq!(jar.get(b"a.com", b"/x", b"n").map(|r| r.expiration), Some(Some(3)));
}

#[test]
fn later_record_replaces_earlier() {
    let text = "a.com\tFALSE\t/\tFALSE\t10\tn\told\n\
                b.com\tFALSE\t/\tFALSE\t20\tn\tother\n\
                a.com\tFALSE\t/\tTRUE\t30\tn\tnew\n";
    let jar = jar_of(text);
    assert_eq!(jar.len(), 2);
    let kept = jar.get(b"a.com", b"/", b"n").expect("cookie is in the jar");
    assert_eq!(kept.value, b"new".to_vec());
    assert_eq!(kept.expiration, Some(30));
    assert!(kept.secure);
    assert_eq!(jar.position(b"a.com", b"/", b"n"), Some(0));
    assert_eq!(jar.record(1).value, b"other".to_vec());
}

#[test]
fn zero_expiration_in_any_spelling_is_none() {
    for field in ["0", "00", "+0", "-0"] {
        let text = format!("d\tFALSE\t/\tFALSE\t{}\tn\tv", field);
        let jar = jar_of(&text);
        assert_eq!(jar.record(0).expiration, None);
    }
}

#[test]
fn secure_only_for_exact_true() {
    assert!(jar_of("d\tFALSE\t/\tTRUE\t1\tn\tv").record(0).secure);
    for flag in ["FALSE", "true", "1", "", "TRUE ", " TRUE", "TRUEE", "True"] {
        let text = format!("d\tFALSE\t/\t{}\t1\tn\tv", flag);
        let jar = jar_of(&text);
        assert!(!jar.record(0).secure);
    }
}

#[test]
fn too_few_fields_fail_the_whole_input() {
    let text = "d\tFALSE\t/\tTRUE\t1\tn\tv\nd\tFALSE\t/\tTRUE\t1\tn\n";
    let e = syntax_error_of(text);
    assert_eq!(e, SyntaxError { line: 2, offset: 18, kind: SyntaxErrorKind::FieldCount { found: 6 } });
}

#[test]
fn too_many_fields_fail_the_whole_input() {
    let e = syntax_error_of("d\tFALSE\t/\tTRUE\t1\tn\tv\textra");
    assert_eq!(e, SyntaxError { line: 1, offset: 20, kind: SyntaxErrorKind::FieldCount { found: 8 } });
}

#[test]
fn line_without_tabs_is_rejected() {
    let e = syntax_error_of("# head\n\nnot a record\n");
    assert_eq!(e, SyntaxError { line: 3, offset: 12, kind: SyntaxErrorKind::FieldCount { found: 1 } });
}

#[test]
fn first_error_is_reported() {
    let text = "d\tFALSE\t/\tTRUE\tx\tn\tv\nshort\n";
    let e = syntax_error_of(text);
    assert_eq!(e, SyntaxError { line: 1, offset: 15, kind: SyntaxErrorKind::Expiration });
}

#[test]
fn error_in_a_line_with_carriage_return() {
    let e = syntax_error_of("# head\r\na\tb\r\n");
    assert_eq!(e, SyntaxError { line: 2, offset: 3, kind: SyntaxErrorKind::FieldCount { found: 2 } });
    let e = syntax_error_of("1\t2\t3\t4\t5\t6\t7\t8\t9\n");
    assert_eq!(e, SyntaxError { line: 1, offset: 13, kind: SyntaxErrorKind::FieldCount { found: 9 } });
}

#[test]
fn empty_input_gives_empty_jar() {
    let jar = jar_of("");
    assert_eq!(jar.len(), 0);
    assert!(jar.is_empty());
}

#[test]
fn comments_and_blank_lines_give_empty_jar() {
    let jar = jar_of("# Netscape HTTP Cookie File\n# second\n\n\r\n#\n");
    assert!(jar.is_empty());
}

#[test]
fn comments_between_records_are_skipped() {
    let text = "# head\n\na\tTRUE\t/\tFALSE\t5\tn\tv\n#a\tTRUE\t/\tFALSE\t5\tm\tv\n";
    let jar = jar_of(text);
    assert_eq!(jar.len(), 1);
    assert_eq!(jar.record(0).name, b"n".to_vec());
}

#[test]
fn carriage_return_line_feed_is_accepted() {
    let text = "a\tTRUE\t/\tFALSE\t5\tn\tv\r\nb\tTRUE\t/\tFALSE\t6\tm\tw\r\n";
    let jar = jar_of(text);
    assert_eq!(jar.len(), 2);
    assert_eq!(jar.record(0).value, b"v".to_vec());
    assert_eq!(jar.record(1).value, b"w".to_vec());
}

#[test]
fn empty_fields_are_kept() {
    let jar = jar_of("\t\t\t\t7\t\t");
    assert_eq!(jar.len(), 1);
    let r = jar.record(0);
    assert_eq!(r.domain, Vec::<u8>::new());
    assert_eq!(r.path, Vec::<u8>::new());
    assert_eq!(r.name, Vec::<u8>::new());
    assert_eq!(r.value, Vec::<u8>::new());
    assert_eq!(r.expiration, Some(7));
    assert!(!r.secure);
}

#[test]
fn leading_dot_and_spaces_are_kept_verbatim() {
    let jar = jar_of(".example.com\tTRUE\t/a b\tFALSE\t9\t na me \t v%20 ");
    let r = jar.record(0);
    assert_eq!(r.domain, b".example.com".to_vec());
    assert_eq!(r.path, b"/a b".to_vec());
    assert_eq!(r.name, b" na me ".to_vec());
    assert_eq!(r.value, b" v%20 ".to_vec());
}

#[test]
fn text_beyond_ascii_is_kept_as_its_bytes() {
    let jar = jar_of("d\tFALSE\t/\tFALSE\t1\tn\tcaf\u{e9}");
    assert_eq!(jar.record(0).value, "caf\u{e9}".as_bytes().to_vec());
}

#[test]
fn fields_of_a_text_input_read_as_text() {
    let jar = jar_of("example.com\tFALSE\t/p\tTRUE\t1700000000\tsession\tcaf\u{e9}");
    let r = jar.record(0);
    assert_eq!(r.domain_text(), Some("example.com"));
    assert_eq!(r.path_text(), Some("/p"));
    assert_eq!(r.name_text(), Some("session"));
    assert_eq!(r.value_text(), Some("caf\u{e9}"));
    let raw = parse_bytes(b"\xff\tF\t\xfe\tF\t1\t\xc3\t\x80").expect("accepted");
    let r = raw.record(0);
    assert_eq!(r.domain_text(), None);
    assert_eq!(r.path_text(), None);
    assert_eq!(r.name_text(), None);
    assert_eq!(r.value_text(), None);
}

#[test]
fn negative_and_extreme_expirations() {
    assert_eq!(jar_of("d\tF\t/\tF\t-5\tn\tv").record(0).expiration, Some(-5));
    assert_eq!(jar_of("d\tF\t/\tF\t+5\tn\tv").record(0).expiration, Some(5));
    assert_eq!(jar_of("d\tF\t/\tF\t0042\tn\tv").record(0).expiration, Some(42));
    assert_eq!(
        jar_of("d\tF\t/\tF\t9223372036854775807\tn\tv").record(0).expiration,
        Some(i64::MAX)
    );
    assert_eq!(
        jar_of("d\tF\t/\tF\t-9223372036854775808\tn\tv").record(0).expiration,
        Some(i64::MIN)
    );
}

#[test]
fn expiration_out_of_range_or_malformed_is_rejected() {
    for field in ["9223372036854775808", "-9223372036854775809", "", "-", "+", "1.5", "12a", " 1", "--1"]
    {
        let text = format!("d\tFALSE\t/\tFALSE\t{}\tn\tv", field);
        let e = syntax_error_of(&text);
        assert_eq!(e.kind, SyntaxErrorKind::Expiration);
        assert_eq!(e.line, 1);
        assert_eq!(e.offset, 16);
    }
}

#[test]
fn records_come_in_line_order() {
    let text = "a\tF\t/\tF\t1\tn\tfirst\na\tF\t/\tF\t2\tn\tsecond\n";
    let records = CookieParser::records(text.as_bytes()).expect("accepted");
    assert_eq!(records.len(), 2);
    assert_eq!(records[0].value, b"first".to_vec());
    assert_eq!(records[1].value, b"second".to_vec());
    let jar = Cookies::from_records(&records);
    assert_eq!(jar.len(), 1);
    assert_eq!(jar.record(0), &records[1]);
}

#[test]
fn bytes_and_text_agree() {
    let text = "a\tF\t/\tTRUE\t1\tn\tv\n";
    let from_text = jar_of(text);
    let from_bytes = parse_bytes(text.as_bytes()).expect("accepted");
    assert_eq!(from_text.len(), from_bytes.len());
    assert_eq!(from_text.record(0), from_bytes.record(0));
}

#[test]
fn error_kinds_can_be_told_apart() {
    let e = parse("bad").expect_err("rejected");
    assert!(e.is_syntax());
    assert_eq!(
        e.syntax(),
        Some(SyntaxError { line: 1, offset: 3, kind: SyntaxErrorKind::FieldCount { found: 1 } })
    );
    let io = Error::IoError(String::from("gone"));
    assert!(!io.is_syntax());
    assert_eq!(io.syntax(), None);
}

#[test]
fn from_fields_converts_each_field() {
    let r = CookieRecord::from_fields(b"d", b"whatever", b"/p", b"TRUE", b"12", b"n", b"v");
    assert_eq!(
        r,
        Some(CookieRecord {
            domain: b"d".to_vec(),
            path: b"/p".to_vec(),
            secure: true,
            expiration: Some(12),
            name: b"n".to_vec(),
            value: b"v".to_vec(),
        })
    );
    assert_eq!(CookieRecord::from_fields(b"d", b"", b"/p", b"TRUE", b"x", b"n", b"v"), None);
}
