use pygxml::wildcard::NameMatcher;

fn m(matcher: &NameMatcher, name: &str) -> bool {
    matcher.matches(name, name)
}

#[test]
fn exact() {
    let pat = NameMatcher::parse("book");
    assert!(m(&pat, "book"));
    assert!(!m(&pat, "books"));
}

#[test]
fn glob_star() {
    let pat = NameMatcher::parse("b*k");
    assert!(m(&pat, "book"));
    assert!(m(&pat, "bk"));
    assert!(m(&pat, "bxxxk"));
    assert!(!m(&pat, "blob"));
}

#[test]
fn glob_question() {
    let pat = NameMatcher::parse("b??k");
    assert!(m(&pat, "book"));
    assert!(!m(&pat, "bk"));
    assert!(!m(&pat, "bxxxk"));
}

#[test]
fn escape() {
    let pat = NameMatcher::parse("a\\*b");
    assert!(m(&pat, "a*b"));
    assert!(!m(&pat, "axb"));
}

#[test]
fn prefix_aware_when_pattern_has_colon() {
    let pat = NameMatcher::parse("atom:entry");
    assert!(pat.matches("atom:entry", "entry"));
    assert!(!pat.matches("entry", "entry"));
    assert!(!pat.matches("rss:entry", "entry"));
}

#[test]
fn local_only_when_pattern_has_no_colon() {
    let pat = NameMatcher::parse("entry");
    assert!(pat.matches("atom:entry", "entry"));
    assert!(pat.matches("entry", "entry"));
}

#[test]
fn parse_tells_literals_from_globs() {
    assert_eq!(NameMatcher::parse("book"), NameMatcher::Exact("book".to_string()));
    assert_eq!(NameMatcher::parse("b*k"), NameMatcher::Glob("b*k".to_string()));
    assert_eq!(NameMatcher::parse("b?k"), NameMatcher::Glob("b?k".to_string()));
    assert_eq!(NameMatcher::parse("a\\*b"), NameMatcher::Exact("a\\*b".to_string()));
    assert_eq!(NameMatcher::parse("a\\*b*"), NameMatcher::Glob("a\\*b*".to_string()));
    assert_eq!(NameMatcher::parse("a\\"), NameMatcher::Exact("a\\".to_string()));
    assert_eq!(NameMatcher::parse(""), NameMatcher::Exact(String::new()));
}

#[test]
fn source_of_a_pattern() {
    assert_eq!(NameMatcher::parse("b*k").as_source(), "b*k");
    assert_eq!(NameMatcher::parse("book").as_source(), "book");
    assert_eq!(NameMatcher::parse("a\\.b").as_source(), "a\\.b");
    assert_eq!(NameMatcher::parse("a\\*b").as_source(), "a\\*b");
}

#[test]
fn escaped_name_is_literal() {
    let pat = NameMatcher::parse("\\*\\?\\\\");
    assert_eq!(pat, NameMatcher::Exact("\\*\\?\\\\".to_string()));
    assert!(m(&pat, "*?\\"));
    assert!(!m(&pat, "ab\\"));
}

#[test]
fn glob_falls_back_to_the_last_star() {
    let pat = NameMatcher::parse("a*b*c");
    assert!(m(&pat, "abc"));
    assert!(m(&pat, "axbybzc"));
    assert!(m(&pat, "abcbc"));
    assert!(!m(&pat, "abcb"));
    assert!(m(&NameMatcher::parse("*"), ""));
    assert!(m(&NameMatcher::parse("**"), "anything"));
    assert!(m(&NameMatcher::parse("*ab"), "aab"));
    assert!(m(&NameMatcher::parse("x*\\*"), "xyz*"));
    assert!(!m(&NameMatcher::parse("x*\\*"), "xyz"));
}

#[test]
fn glob_counts_characters_not_bytes() {
    assert!(m(&NameMatcher::parse("?"), "é"));
    assert!(!m(&NameMatcher::parse("??"), "é"));
    assert!(m(&NameMatcher::parse("日*"), "日本語"));
}

#[test]
fn glob_with_colon_is_qualified() {
    let pat = NameMatcher::parse("atom:*");
    assert!(pat.matches("atom:entry", "entry"));
    assert!(!pat.matches("rss:entry", "entry"));
}

#[test]
fn bytes_match_as_text() {
    for pattern in ["book", "b*k", "atom:entry", "a?om:*", "é*", ""] {
        let pat = NameMatcher::parse(pattern);
        for (full, local) in [("book", "book"), ("atom:entry", "entry"), ("écrit", "écrit"), ("", "")] {
            assert_eq!(
                pat.matches_bytes(full.as_bytes(), local.as_bytes()),
                pat.matches(full, local),
                "{} {}",
                pattern,
                full
            );
        }
    }
}

#[test]
fn glob_reads_invalid_bytes_as_no_name() {
    assert!(NameMatcher::parse("*").matches_bytes(&[0xff], &[0xff]));
    assert!(!NameMatcher::parse("?").matches_bytes(&[0xff], &[0xff]));
    assert!(!NameMatcher::parse("a").matches_bytes(&[0xff], &[0xff]));
}

#[test]
fn escapes_are_resolved_where_a_name_is_compared() {
    let pat = NameMatcher::parse("a\\.\\é\\");
    assert!(m(&pat, "a.é"));
    assert!(!m(&pat, "a\\.\\é\\"));
    assert!(pat.matches_bytes("x:a.é".as_bytes(), "a.é".as_bytes()));
    assert!(!pat.matches_bytes("a.é".as_bytes(), "a".as_bytes()));
    assert!(NameMatcher::parse("p\\:a").matches("p:a", "a"));
    assert!(!NameMatcher::parse("p\\:a").matches("q:a", "p:a"));
}
