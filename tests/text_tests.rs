use melvin::lexer::{Lexer, ParseErrorKind, Token};
use melvin::parser::{buf_to_textmap, status_from_textmap, textmap_to_buf};
use melvin::{Element, Entry, LvmTextMap, TextMapOps};

fn keys(m: &LvmTextMap) -> Vec<Vec<u8>> {
    m.entries.iter().map(|(k, _)| k.clone()).collect()
}

#[test]
fn parse_text_three_entries() {
    let input = b"id = \"abc\"\nseqno = 42\nstatus = [\"READ\", \"WRITE\"]\n";
    let m = buf_to_textmap(input).unwrap();
    assert_eq!(m.len(), 3);
    assert_eq!(m.string_from_textmap(b"id"), Some(&b"abc".to_vec()));
    assert_eq!(m.i64_from_textmap(b"seqno"), Some(42));
    let l = m.list_from_textmap(b"status").unwrap();
    assert_eq!(l.len(), 2);
    assert!(matches!(&l[0], Element::String(s) if s == b"READ"));
    assert!(matches!(&l[1], Element::String(s) if s == b"WRITE"));
    let text = textmap_to_buf(&m);
    let m2 = buf_to_textmap(&text).unwrap();
    assert_eq!(keys(&m2), keys(&m));
    assert_eq!(textmap_to_buf(&m2), text);
    assert_eq!(m2.i64_from_textmap(b"seqno"), Some(42));
}

#[test]
fn serialize_format() {
    let m = buf_to_textmap(b"a = 1\nb { c = \"x\" d = [1, -2, \"y\"] }\n").unwrap();
    let text = textmap_to_buf(&m);
    assert_eq!(text, b"a = 1\nb {\n  c = \"x\"\n  d = [1, -2, \"y\"]\n}\n".to_vec());
}

#[test]
fn text_round_trip_nested() {
    let input = b"# comment\nvg {\n id = \"x-y\"\n physical_volumes {\n pv0 { dev_size = 262144 }\n }\n}\nversion = 1\n";
    let m = buf_to_textmap(input).unwrap();
    let t1 = textmap_to_buf(&m);
    let m2 = buf_to_textmap(&t1).unwrap();
    let t2 = textmap_to_buf(&m2);
    assert_eq!(t1, t2);
    let vg = m2.textmap_from_textmap(b"vg").unwrap();
    let pvs = vg.textmap_from_textmap(b"physical_volumes").unwrap();
    let pv0 = pvs.textmap_from_textmap(b"pv0").unwrap();
    assert_eq!(pv0.i64_from_textmap(b"dev_size"), Some(262144));
}

#[test]
fn text_idempotent() {
    let x = b"b = 2\na = \"q\"\nb = 3\ns { }\nl = []\n";
    let s1 = textmap_to_buf(&buf_to_textmap(x).unwrap());
    let s2 = textmap_to_buf(&buf_to_textmap(&s1).unwrap());
    assert_eq!(s1, s2);
    assert_eq!(s1, b"b = 3\na = \"q\"\ns {\n}\nl = []\n".to_vec());
}

#[test]
fn digit_key_after_brace() {
    let m = buf_to_textmap(b"s {\n0x = 5\n}\n").unwrap();
    let s = m.textmap_from_textmap(b"s").unwrap();
    assert_eq!(s.i64_from_textmap(b"0x"), Some(5));
}

#[test]
fn lexer_tokens() {
    let input = b"a = -12 { \"s\" }";
    let mut lx = Lexer::new(input);
    let t = lx.tokenize().unwrap();
    assert_eq!(
        t,
        vec![Token::Ident(0, 1), Token::Equals, Token::Number(-12), Token::CurlyOpen, Token::String(11, 12), Token::CurlyClose]
    );
}

#[test]
fn parse_errors() {
    assert_eq!(buf_to_textmap(b"a = \"open").unwrap_err().kind, ParseErrorKind::Unterminated);
    assert_eq!(buf_to_textmap(b"a = -").unwrap_err().kind, ParseErrorKind::BadNumber);
    assert_eq!(buf_to_textmap(b"a = 99999999999999999999").unwrap_err().kind, ParseErrorKind::BadNumber);
    assert_eq!(buf_to_textmap(b"a = ?").unwrap_err().kind, ParseErrorKind::Unexpected);
    assert_eq!(buf_to_textmap(b"= 1").unwrap_err().kind, ParseErrorKind::Unexpected);
    assert_eq!(buf_to_textmap(b"a { b = 1").unwrap_err().kind, ParseErrorKind::BadBrace);
    assert_eq!(buf_to_textmap(b"a = 1 } b = 2").unwrap_err().kind, ParseErrorKind::BadBrace);
}

#[test]
fn number_limits() {
    let m = buf_to_textmap(b"a = -9223372036854775808\nb = 9223372036854775807\n").unwrap();
    assert_eq!(m.i64_from_textmap(b"a"), Some(i64::MIN));
    assert_eq!(m.i64_from_textmap(b"b"), Some(i64::MAX));
    let t = textmap_to_buf(&m);
    assert_eq!(t, b"a = -9223372036854775808\nb = 9223372036854775807\n".to_vec());
}

#[test]
fn status_string_or_list() {
    let m = buf_to_textmap(b"status = \"READ\"\n").unwrap();
    assert_eq!(status_from_textmap(&m).unwrap(), vec![b"READ".to_vec()]);
    let m = buf_to_textmap(b"status = [\"A\", 3, \"B\"]\n").unwrap();
    assert_eq!(status_from_textmap(&m).unwrap(), vec![b"A".to_vec(), b"B".to_vec()]);
    let m = buf_to_textmap(b"status = 3\n").unwrap();
    assert!(matches!(status_from_textmap(&m), Err(melvin::Error::Shape(k)) if k == b"status"));
}

#[test]
fn insert_keeps_place() {
    let mut m = LvmTextMap::new();
    m.insert(b"a".to_vec(), Entry::Number(1));
    m.insert(b"b".to_vec(), Entry::Number(2));
    m.insert(b"a".to_vec(), Entry::Number(3));
    assert_eq!(textmap_to_buf(&m), b"a = 3\nb = 2\n".to_vec());
    assert_eq!(m.get(b"c").is_none(), true);
}

#[test]
fn comments_run_to_line_end() {
    let m = buf_to_textmap(b"# a = 1\nb = 2 # c = 3\n#").unwrap();
    assert_eq!(keys(&m), vec![b"b".to_vec()]);
}

#[test]
fn into_textmap_reads_like_buf_to_textmap() {
    let m = melvin::parser::into_textmap(b"a = 1\n").unwrap();
    assert_eq!(m.i64_from_textmap(b"a"), Some(1));
}

#[test]
fn digit_led_first_key_round_trips() {
    let m = buf_to_textmap(b"s {\n0x = 5\nb = \"t\"\n}\n").unwrap();
    let t = textmap_to_buf(&m);
    let m2 = buf_to_textmap(&t).unwrap();
    assert_eq!(textmap_to_buf(&m2), t);
    assert_eq!(m2.textmap_from_textmap(b"s").unwrap().i64_from_textmap(b"0x"), Some(5));
}
