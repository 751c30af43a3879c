use findbar::{
    expand_and_normalize_path, expand_path, infer_name_from_path, normalize_for_comparison,
    urlencoding_decode, PathError, PathFacts,
};

fn facts_for(p: &str) -> PathFacts {
    PathFacts { expanded: expand_path(p).ok(), canonical: None, cwd: None }
}

fn facts(expanded: Option<&str>, canonical: Option<&str>, cwd: Option<&str>) -> PathFacts {
    PathFacts {
        expanded: expanded.map(|s| s.to_string()),
        canonical: canonical.map(|s| s.to_string()),
        cwd: cwd.map(|s| s.to_string()),
    }
}

#[test]
fn test_urlencoding_decode() {
    assert_eq!(
        urlencoding_decode("file:///Users/test/My%20Folder"),
        "file:///Users/test/My Folder"
    );
    assert_eq!(
        urlencoding_decode("file:///Users/test/Caf%C3%A9%20%28Work%29"),
        "file:///Users/test/Café (Work)"
    );
    assert_eq!(urlencoding_decode("plain_text"), "plain_text");
}

#[test]
fn test_infer_name_from_path() {
    assert_eq!(
        infer_name_from_path("/Users/aresminos/Downloads"),
        "Downloads"
    );
    assert_eq!(infer_name_from_path("/Applications"), "Applications");
    assert_eq!(infer_name_from_path("~/Projects/findbar"), "findbar");
}

#[test]
fn test_normalize_for_comparison() {
    let n1 = normalize_for_comparison("/Applications/", &facts_for("/Applications/"));
    let n2 = normalize_for_comparison("/Applications", &facts_for("/Applications"));
    assert_eq!(n1, n2);
}

#[test]
fn decode_keeps_incomplete_and_invalid_escapes() {
    assert_eq!(urlencoding_decode("%41%"), "A%");
    assert_eq!(urlencoding_decode("a%2"), "a%2");
    assert_eq!(urlencoding_decode("%zz%4"), "%zz%4");
    assert_eq!(urlencoding_decode("%41x"), "Ax");
    assert_eq!(urlencoding_decode("%6a%6A"), "jj");
}

#[test]
fn decode_needs_two_hex_digits() {
    assert_eq!(urlencoding_decode("%+1"), "%+1");
    assert_eq!(urlencoding_decode("x%+41"), "x%+41");
    assert_eq!(urlencoding_decode("x%-41"), "x%-41");
    assert_eq!(urlencoding_decode("x% 4"), "x% 4");
}

#[test]
fn decode_replaces_invalid_utf8() {
    assert_eq!(urlencoding_decode("a%FFb"), "a\u{FFFD}b");
}

#[test]
fn decode_leaves_text_without_percent_unchanged() {
    for s in ["", "Café", "/a b/c", "日本"] {
        assert_eq!(urlencoding_decode(s), s);
    }
}

#[test]
fn final_component_follows_path_components() {
    assert_eq!(infer_name_from_path("/"), "/");
    assert_eq!(infer_name_from_path(""), "");
    assert_eq!(infer_name_from_path("a/b/"), "b");
    assert_eq!(infer_name_from_path("a/b//"), "b");
    assert_eq!(infer_name_from_path("a/.."), "a/..");
    assert_eq!(infer_name_from_path("a/."), "a");
    assert_eq!(infer_name_from_path("."), ".");
    assert_eq!(infer_name_from_path("./"), "./");
    assert_eq!(infer_name_from_path("/x/./."), "x");
    assert_eq!(infer_name_from_path("name"), "name");
    assert_eq!(infer_name_from_path("a/.b"), ".b");
    assert_eq!(infer_name_from_path("a/..."), "...");
}

#[test]
fn expansion_without_variables() {
    assert_eq!(expand_path("/Applications").unwrap(), "/Applications");
    assert_eq!(expand_path("rel/dir").unwrap(), "rel/dir");
    assert_eq!(expand_path("~user/x").unwrap(), "~user/x");
    let home = expand_path("~/Projects").unwrap();
    assert!(home.ends_with("/Projects"));
}

#[test]
fn expansion_replaces_a_set_variable() {
    let expanded = expand_path("${PATH}").unwrap();
    assert_ne!(expanded, "${PATH}");
}

#[test]
fn expansion_of_an_unset_variable_fails() {
    let input = "$FINDBAR_TEST_SURELY_UNSET_VARIABLE/x";
    assert_eq!(
        expand_path(input),
        Err(PathError::Expansion { input: input.to_string() })
    );
    assert_eq!(
        expand_and_normalize_path(input, &facts_for(input)),
        Err(PathError::Expansion { input: input.to_string() })
    );
}

#[test]
fn file_urls_are_stripped_and_decoded() {
    let f = facts(Some("file:///tmp/My%20Dir"), Some("/elsewhere"), Some("/cwd"));
    assert_eq!(
        expand_and_normalize_path("file:///tmp/My%20Dir", &f).unwrap(),
        "/tmp/My Dir"
    );
    let f = facts(Some("x"), None, None);
    assert_eq!(
        expand_and_normalize_path("file://file:///a", &f).unwrap(),
        "/a"
    );
}

#[test]
fn the_canonical_path_wins_over_the_expansion() {
    let f = facts(Some("/var/link"), Some("/private/var/real"), Some("/cwd"));
    assert_eq!(
        expand_and_normalize_path("/var/link", &f).unwrap(),
        "/private/var/real"
    );
}

#[test]
fn absolute_and_relative_paths_without_a_canonical_form() {
    let f = facts(Some("/no/such"), None, Some("/cwd"));
    assert_eq!(expand_and_normalize_path("/no/such", &f).unwrap(), "/no/such");
    let f = facts(Some("rel/x"), None, Some("/home/me"));
    assert_eq!(expand_and_normalize_path("rel/x", &f).unwrap(), "/home/me/rel/x");
    let f = facts(Some("rel"), None, Some("/home/me/"));
    assert_eq!(expand_and_normalize_path("rel", &f).unwrap(), "/home/me/rel");
    let f = facts(Some("rel"), None, None);
    assert_eq!(expand_and_normalize_path("rel", &f).unwrap(), "/rel");
    let f = facts(Some(""), None, Some("/d"));
    assert_eq!(expand_and_normalize_path("", &f).unwrap(), "/d/");
}

#[test]
fn comparison_keys_are_lowercase_without_trailing_slashes() {
    let f = facts(Some("/Users/Me/Downloads///"), None, None);
    assert_eq!(
        normalize_for_comparison("/Users/Me/Downloads///", &f),
        "/users/me/downloads"
    );
    let f = facts(Some("/ÀB/"), None, None);
    assert_eq!(normalize_for_comparison("/ÀB/", &f), "/àb");
    let f = facts(None, None, None);
    assert_eq!(normalize_for_comparison("$X/Dir/", &f), "$x/dir");
}

#[test]
fn decoding_undoes_a_percent_encoding() {
    assert_eq!(urlencoding_decode("Caf%c3%A9%20%2528Work%29"), "Café %28Work)");
    assert_eq!(urlencoding_decode("%25"), "%");
    assert_eq!(urlencoding_decode("%2F%2f"), "//");
    assert_eq!(urlencoding_decode("%E6%97%A5%e6%9c%ac"), "日本");
}

#[test]
fn tilde_and_home_compare_equal() {
    let tilde = "~/Projects";
    let expanded = expand_path(tilde).unwrap();
    assert_eq!(
        normalize_for_comparison(tilde, &facts(Some(&expanded), None, Some("/cwd"))),
        normalize_for_comparison(&expanded, &facts(Some(&expanded), None, Some("/cwd")))
    );
}
