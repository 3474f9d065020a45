use airkorea::{join_trimmed_parts, trim, unwrap_parenthesized, Grade};

#[test]
fn unwrap_parenthesized_finds_the_code() {
    assert_eq!(unwrap_parenthesized("측정소(PM10)"), Some("PM10".to_string()));
    assert_eq!(unwrap_parenthesized("측정소"), None);
    assert_eq!(unwrap_parenthesized("통합대기환경지수(CAI)"), Some("CAI".to_string()));
    assert_eq!(unwrap_parenthesized("()"), Some(String::new()));
}

#[test]
fn unwrap_parenthesized_takes_the_first_group() {
    assert_eq!(unwrap_parenthesized("a(b)c(d)e"), Some("b".to_string()));
    assert_eq!(unwrap_parenthesized("a(b(c))"), Some("b(c".to_string()));
    assert_eq!(unwrap_parenthesized("x)(y"), None);
    assert_eq!(unwrap_parenthesized("x)(y)"), Some("y".to_string()));
}

#[test]
fn unwrap_parenthesized_ignores_line_breaks() {
    assert_eq!(unwrap_parenthesized("a(b\nc)"), Some("b\nc".to_string()));
    assert_eq!(unwrap_parenthesized("(x)\ny)"), Some("x".to_string()));
}

#[test]
fn trim_removes_white_space_at_both_ends() {
    assert_eq!(trim("  a b \n"), "a b");
    assert_eq!(trim("\u{3000}측정소\u{a0}"), "측정소");
    assert_eq!(trim(" \t\n "), "");
    assert_eq!(trim(""), "");
    for s in ["  x ", "\u{2003}y\u{85}", "z", "\u{200b}w"] {
        assert_eq!(trim(s), s.trim());
    }
}

#[test]
fn join_trimmed_parts_concatenates() {
    let parts = vec![" foo ".to_string(), "\nbar".to_string(), "  ".to_string(), "baz\t".to_string()];
    assert_eq!(join_trimmed_parts(&parts), "foobarbaz");
    assert_eq!(join_trimmed_parts(&vec![]), "");
}

#[test]
fn grade_follows_the_leading_glyph() {
    assert_eq!(Grade::from_str("좋음"), Grade::Good);
    assert_eq!(Grade::from_str("보통"), Grade::Normal);
    assert_eq!(Grade::from_str("나쁨"), Grade::Bad);
    assert_eq!(Grade::from_str("매우나쁨"), Grade::Critical);
    assert_eq!(Grade::from_str(""), Grade::Unknown);
    assert_eq!(Grade::from_str("점검중"), Grade::Unknown);
    assert_eq!(Grade::from_str("Good"), Grade::Unknown);
    assert_eq!(Grade::from_str(" 좋음"), Grade::Unknown);
}

#[test]
fn grade_ignores_what_follows_the_glyph() {
    assert_eq!(Grade::from_str("좋"), Grade::from_str("좋음ppm"));
    assert_eq!(Grade::from_str("보통㎍/㎥"), Grade::Normal);
    assert_eq!(Grade::from_str("매"), Grade::Critical);
}

#[test]
fn grades_are_ordered_and_named() {
    assert!(Grade::Unknown < Grade::Good);
    assert!(Grade::Good < Grade::Normal);
    assert!(Grade::Normal < Grade::Bad);
    assert!(Grade::Bad < Grade::Critical);
    assert_eq!(Grade::Unknown.as_str(), "None");
    assert_eq!(Grade::Good.as_str(), "Good");
    assert_eq!(Grade::Normal.as_str(), "Normal");
    assert_eq!(Grade::Bad.as_str(), "Bad");
    assert_eq!(Grade::Critical.as_str(), "Critical");
}
