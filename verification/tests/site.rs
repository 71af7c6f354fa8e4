use ssg::site::custom_domain_host;

#[test]
fn extracts_custom_domain() {
    assert_eq!(
        custom_domain_host("https://chiho.one/"),
        Some("chiho.one".into())
    );
    assert_eq!(
        custom_domain_host("https://chiho.one"),
        Some("chiho.one".into())
    );
}

#[test]
fn ignores_github_io_host() {
    assert_eq!(custom_domain_host("https://hyeyoom.github.io/"), None);
    assert_eq!(custom_domain_host("https://hyeyoom.github.io/sub/"), None);
}

#[test]
fn ignores_empty_or_invalid() {
    assert_eq!(custom_domain_host(""), None);
    assert_eq!(custom_domain_host("https://"), None);
}

#[test]
fn strips_http_scheme_path_and_whitespace() {
    assert_eq!(
        custom_domain_host("http://blog.example.org/posts/"),
        Some("blog.example.org".into())
    );
    assert_eq!(
        custom_domain_host("https:// spaced.example \u{3000}/x"),
        Some("spaced.example".into())
    );
}

#[test]
fn strips_repeated_scheme_prefixes() {
    assert_eq!(
        custom_domain_host("https://https://http://chiho.one/"),
        Some("chiho.one".into())
    );
}

#[test]
fn any_host_ending_in_github_io_is_default() {
    assert_eq!(custom_domain_host("https://notgithub.io"), None);
    assert_eq!(custom_domain_host("   /path"), None);
}
