use tonnelle::credentials::{parse_credentials, try_parse_credentials};

fn s(x: &str) -> Option<String> {
    Some(x.to_string())
}

#[test]
fn basic_user_and_password() {
    assert_eq!(parse_credentials("Basic dXNlcjpwYXNz"), (s("user"), s("pass")));
    assert_eq!(parse_credentials("  Basic \t dXNlcjpwYXNz \n"), (s("user"), s("pass")));
}

#[test]
fn basic_user_only() {
    assert_eq!(parse_credentials("Basic dXNlcg=="), (s("user"), None));
}

#[test]
fn too_many_colons_give_nothing() {
    assert_eq!(parse_credentials("Basic YTpiOmM="), (None, None));
}

#[test]
fn empty_and_separator_only() {
    assert_eq!(parse_credentials("Basic Og=="), (s(""), s("")));
}

#[test]
fn utf8_credentials() {
    assert_eq!(parse_credentials("Basic w7xzZXI6cMOkc3M="), (s("\u{fc}ser"), s("p\u{e4}ss")));
}

#[test]
fn other_forms_give_nothing() {
    assert_eq!(parse_credentials("Bearer dXNlcjpwYXNz"), (None, None));
    assert_eq!(parse_credentials("Basic"), (None, None));
    assert_eq!(parse_credentials("basic dXNlcjpwYXNz"), (None, None));
    assert_eq!(parse_credentials("Basic dXNlcjpwYXNz extra"), (None, None));
    assert_eq!(parse_credentials(""), (None, None));
    // Unicode white space separates words too.
    assert_eq!(parse_credentials("Basic\u{3000}dXNlcjpwYXNz"), (s("user"), s("pass")));
}

#[test]
fn unreadable_tokens() {
    assert_eq!(try_parse_credentials("Basic !!!!"), None);
    assert_eq!(try_parse_credentials("Basic /w=="), None);
    assert_eq!(try_parse_credentials("Basic dXNlcjpwYXNz"), Some((s("user"), s("pass"))));
    assert_eq!(try_parse_credentials("Token !!!!"), Some((None, None)));
}
