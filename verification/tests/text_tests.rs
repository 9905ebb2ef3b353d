use cargo_gha::text::{ends_with, equal, join, replace, split};

#[test]
fn replace_replaces_every_occurrence() {
    assert_eq!(replace("a-b-c", "-", "+"), "a+b+c");
    assert_eq!(replace("aaaa", "aa", "b"), "bb");
    assert_eq!(replace("aaa", "aa", "b"), "ba");
    assert_eq!(replace("abc", "x", "y"), "abc");
}

#[test]
fn replace_with_empty_pattern_matches_std() {
    assert_eq!(replace("abc", "", "X"), "XaXbXcX");
    assert_eq!(replace("", "", "X"), "X");
    assert_eq!(replace("abc", "", "X"), "abc".replace("", "X"));
}

#[test]
fn replace_agrees_with_std_on_samples() {
    let samples = [
        ("protoc-v1.2-linux.zip", "v1.2", "{TAG}"),
        ("v1v1v", "v1", ""),
        ("héllo wörld", "ö", "oe"),
        ("", "x", "y"),
        ("xyz", "xyz", ""),
    ];
    for (s, from, to) in samples {
        assert_eq!(replace(s, from, to), s.replace(from, to));
    }
}

#[test]
fn ends_with_checks_suffix() {
    assert!(ends_with("archive.tar.gz", ".tar.gz"));
    assert!(!ends_with("archive.tar.gz", ".zip"));
    assert!(ends_with("x", ""));
    assert!(!ends_with("", "x"));
}

#[test]
fn equal_compares_text() {
    assert!(equal("gha", "gha"));
    assert!(!equal("gha", "gh"));
    assert!(!equal("gha", "ghb"));
}

#[test]
fn split_matches_std() {
    for s in ["a:b:c", "", ":", "a::b", "/usr/bin:/bin", "abc:"] {
        let expected: Vec<String> = s.split(':').map(|p| p.to_string()).collect();
        assert_eq!(split(s, ':'), expected);
    }
}

#[test]
fn join_of_split_gives_text_back() {
    for s in ["a:b:c", "", ":", "a::b", "/usr/bin:/bin", "abc:"] {
        assert_eq!(join(&split(s, ':'), ":"), s);
    }
}

#[test]
fn join_puts_separator_between() {
    let parts = vec!["a".to_string(), "b".to_string(), "c".to_string()];
    assert_eq!(join(&parts, ":"), "a:b:c");
    assert_eq!(join(&Vec::new(), ":"), "");
    assert_eq!(join(&vec!["only".to_string()], ":"), "only");
}
