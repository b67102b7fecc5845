use cloud_p2p::text::{parse_u32, split_char, split_words, trim_str};

#[test]
fn trim_removes_outer_whitespace() {
    assert_eq!(trim_str("  192.168.1.10:7001 \t"), "192.168.1.10:7001");
    assert_eq!(trim_str("a b"), "a b");
    assert_eq!(trim_str("   "), "");
    assert_eq!(trim_str(""), "");
    assert_eq!(trim_str("\u{3000}x\u{2003}y\u{85}"), "x\u{2003}y");
}

#[test]
fn split_keeps_empty_pieces() {
    assert_eq!(split_char("1=a,2=b", ','), vec!["1=a".to_string(), "2=b".to_string()]);
    assert_eq!(split_char("", ','), vec!["".to_string()]);
    assert_eq!(split_char("a,,b,", ','), vec!["a", "", "b", ""]);
    assert_eq!(split_char("x=y=z", '='), vec!["x", "y", "z"]);
}

#[test]
fn words_skip_runs_of_whitespace() {
    assert_eq!(split_words("  send-image   /tmp/a.png  "), vec!["send-image", "/tmp/a.png"]);
    assert_eq!(split_words(""), Vec::<String>::new());
    assert_eq!(split_words(" \t "), Vec::<String>::new());
    assert_eq!(split_words("one"), vec!["one"]);
}

#[test]
fn parse_u32_like_std() {
    for s in ["0", "7", "+12", "0042", "4294967295", "4294967296", "", "+", "-1", " 1", "1a", "++1", "99999999999"] {
        assert_eq!(parse_u32(s), s.parse::<u32>().ok(), "input {:?}", s);
    }
}
