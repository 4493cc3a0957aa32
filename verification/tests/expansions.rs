use scriptbox::expansions::is_expanded;

fn expanded(s: &str) -> bool {
    is_expanded(&s.chars().collect::<Vec<char>>())
}

#[test]
fn patterns_are_expanded() {
    assert!(expanded("a*"));
    assert!(expanded("a?b"));
    assert!(expanded("a[bc]d"));
    assert!(expanded("a[]b]"));
    assert!(!expanded("a[bc"));
    assert!(!expanded("a]b["));
    assert!(!expanded("a[]"));
    assert!(!expanded("plain/path.sh"));
    assert!(!expanded(""));
}

#[test]
fn braces_with_alternatives_are_expanded() {
    assert!(expanded("{a,b}"));
    assert!(expanded("x{1..3}y"));
    assert!(expanded("{{a,b}}"));
    assert!(expanded("{a,{b}}"));
    assert!(expanded("{a{b,c}"));
    assert!(!expanded("{a}b,{c}"));
    assert!(!expanded("a{b.sh"));
    assert!(!expanded("{a,b"));
    assert!(!expanded("{a.b}"));
    assert!(!expanded("{}"));
    assert!(!expanded("a},{b"));
}

#[test]
fn only_a_tilde_at_the_start_is_expanded() {
    assert!(expanded("~"));
    assert!(expanded("~/lib.sh"));
    assert!(!expanded("a~"));
    assert!(!expanded("\\~"));
    assert!(!expanded("'~'/x"));
    assert!(!expanded("\"~\""));
}

#[test]
fn what_is_quoted_is_not_expanded() {
    assert!(!expanded("'*?[a]{b,c}'"));
    assert!(!expanded("\"*?[a]{b,c}\""));
    assert!(!expanded("\\*\\?\\[a]\\{b,c}"));
    assert!(!expanded("{a\\,b}"));
    assert!(!expanded("[a\"]\""));
    assert!(!expanded("\"a\\\"*\""));
    assert!(!expanded("'a\\'\\*"));
    assert!(expanded("'a'*"));
    assert!(expanded("\"'\"*"));
    assert!(expanded("'\\'*"));
    assert!(expanded("\\\\*"));
    assert!(!expanded("a\\"));
}
