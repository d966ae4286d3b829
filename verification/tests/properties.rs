use userdb_merge::header::FileHeader;
use userdb_merge::parse::{parse_i32, parse_userdb};
use userdb_merge::store::{Store, parser_line, parser_lines, parser_main_lines, render_output};

fn tick_header(tick: &str) -> FileHeader {
    FileHeader {
        header: String::new(),
        tick: String::from(tick),
    }
}

#[test]
fn test_idempotent_merge() {
    let h = tick_header("t=0");
    let lines: Vec<String> = vec![
        String::from("a\tb\tc=5 d=x t=y"),
        String::from("a\tb\tc=7 d=z t=w"),
        String::from("q\tr\tc=1 d=q1 t=q2"),
    ];
    let mut m = Store::new();
    parser_lines(&h, &lines, &mut m);
    let first_a = m.get("a\tb").unwrap().clone();
    let first_q = m.get("q\tr").unwrap().clone();
    parser_lines(&h, &lines, &mut m);
    assert_eq!(first_a, m.get("a\tb").unwrap().clone());
    assert_eq!(first_q, m.get("q\tr").unwrap().clone());
}

#[test]
fn test_confidence_max() {
    let h = tick_header("t=0");
    let lines: Vec<String> = vec![
        String::from("k\tx\tc=5 d=d1 t=t1"),
        String::from("k\tx\tc=7 d=d2 t=t2"),
        String::from("k\tx\tc=7 d=d3 t=t3"),
        String::from("k\tx\tc=6 d=d4 t=t4"),
    ];
    let mut m = Store::new();
    parser_lines(&h, &lines, &mut m);
    let v = m.get("k\tx").unwrap();
    assert_eq!(7, v.ci);
    assert_eq!("c=7", v.c);
    assert_eq!("d=d1", v.d);
    assert_eq!("t=0", v.t);
}

#[test]
fn test_tie_keeps_first() {
    let h = tick_header("t=0");
    let mut m = Store::new();
    parser_line(&h, "k\tx\tc=4 d=first t=told", &mut m);
    parser_line(&h, "k\tx\tc=4 d=second t=tnew", &mut m);
    let v = m.get("k\tx").unwrap();
    assert_eq!(4, v.ci);
    assert_eq!("c=4", v.c);
    assert_eq!("d=first", v.d);
    assert_eq!("t=0", v.t);
}

#[test]
fn test_round_trip() {
    let h = tick_header("t=99");
    let mut m = Store::new();
    parser_line(&h, "bk\tx2\tc=2 d=dd t=tt", &mut m);
    parser_line(&h, "ak\tx1\tc=1 d=ee t=uu", &mut m);
    let out = render_output(&h, &m);
    for line in out.lines() {
        let u = parse_userdb(line).unwrap();
        let stored = m.get(&u.key).unwrap();
        assert_eq!(stored.key, u.key);
        assert_eq!(stored.c, u.c);
        assert_eq!(stored.d, u.d);
        assert_eq!(stored.t, u.t);
    }
}

#[test]
fn test_output_sorted() {
    let h = tick_header("t=0");
    let mut m = Store::new();
    parser_line(&h, "b\tz\tc=1 d=1 t=1", &mut m);
    parser_line(&h, "a\tz\tc=1 d=1 t=1", &mut m);
    parser_line(&h, "a\ty\tc=1 d=1 t=1", &mut m);
    let out = render_output(&h, &m);
    assert_eq!("a\ty\tc=1 d=1 t=0\na\tz\tc=1 d=1 t=0\nb\tz\tc=1 d=1 t=0\n", out);
}

#[test]
fn test_main_file_pass() {
    let lines: Vec<String> = vec![
        String::from("# top comment"),
        String::from("early\tkey\tc=1 d=e t=e"),
        String::from("#@/tick 12345 extra"),
        String::from("late\tkey\tc=1 d=l t=l"),
    ];
    let mut m = Store::new();
    let h = parser_main_lines(&lines, &mut m);
    assert_eq!("# top comment\n#@/tick 12345 extra\n", h.header);
    assert_eq!("t=12345", h.tick);
    // a data line before the tick line is stamped with the tick as known then
    assert_eq!("", m.get("early\tkey").unwrap().t);
    assert_eq!("t=12345", m.get("late\tkey").unwrap().t);
}

#[test]
fn test_tick_without_value() {
    let lines: Vec<String> = vec![String::from("#@/tick"), String::from("#@/tickers 7")];
    let mut m = Store::new();
    let h = parser_main_lines(&lines, &mut m);
    // no second token on the first line; the second renews it
    assert_eq!("t=7", h.tick);
    assert_eq!("#@/tick\n#@/tickers 7\n", h.header);
}

#[test]
fn test_parse_i32_cases() {
    assert_eq!(Some(123), parse_i32("123"));
    assert_eq!(Some(17), parse_i32("+17"));
    assert_eq!(Some(-45), parse_i32("-45"));
    assert_eq!(Some(-2147483648), parse_i32("-2147483648"));
    assert_eq!(Some(2147483647), parse_i32("2147483647"));
    assert_eq!(None, parse_i32("2147483648"));
    assert_eq!(None, parse_i32("99999999999999999999"));
    assert_eq!(None, parse_i32(""));
    assert_eq!(None, parse_i32("-"));
    assert_eq!(None, parse_i32("12a"));
    assert_eq!(None, parse_i32("1 2"));
}

#[test]
fn test_confidence_fallback_to_zero() {
    let u = parse_userdb("k\tx\tc=abc d=1 t=2").unwrap();
    assert_eq!(0, u.ci);
    assert_eq!("c=abc", u.c);
    let v = parse_userdb("k\tx\tc=99999999999 d=1 t=2").unwrap();
    assert_eq!(0, v.ci);
    let w = parse_userdb("k\tx\tc=-8 d=1 t=2").unwrap();
    assert_eq!(-8, w.ci);
}

#[test]
fn test_reject_shapes() {
    // wrong token count in the third field
    assert_eq!(None, parse_userdb("a\tb\tc=1 d=2"));
    assert_eq!(None, parse_userdb("a\tb\tc=1 d=2 t=3 x=4"));
    // wrong `=` count in the first token
    assert_eq!(None, parse_userdb("a\tb\tc=1=2 d=2 t=3"));
    // four tab fields
    assert_eq!(None, parse_userdb("a\tb\tc\tc=1 d=2 t=3"));
    // comment line
    assert_eq!(None, parse_userdb("#a\tb\tc=1 d=2 t=3"));
}

#[test]
fn test_header_only_merge() {
    let h = tick_header("t=12345");
    let mut m = Store::new();
    parser_line(&h, "ce shi\t测试\tc=10 d=0.1111 t=11111", &mut m);
    let v = m.get("ce shi\t测试").unwrap();
    assert_eq!("t=12345", v.t);
    // an update touches only the confidence fields
    parser_line(&h, "ce shi\t测试\tc=20 d=other t=other", &mut m);
    let w = m.get("ce shi\t测试").unwrap();
    assert_eq!(20, w.ci);
    assert_eq!("c=20", w.c);
    assert_eq!("d=0.1111", w.d);
    assert_eq!("t=12345", w.t);
}
