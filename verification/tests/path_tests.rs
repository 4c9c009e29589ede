use liveserve::path::{
    bytes_eq, join_components, normalize_components, percent_decode, resolve_request,
    split_components,
};

fn b(s: &str) -> Vec<u8> {
    s.as_bytes().to_vec()
}

fn comps(parts: &[&str]) -> Vec<Vec<u8>> {
    parts.iter().map(|p| b(p)).collect()
}

#[test]
fn percent_decode_passthrough() {
    assert_eq!(percent_decode(&b("/index.html")), b("/index.html"));
    assert_eq!(percent_decode(&b("")), b(""));
}

#[test]
fn percent_decode_escapes() {
    assert_eq!(percent_decode(&b("%41%62c")), b("Abc"));
    assert_eq!(percent_decode(&b("a%20b")), b("a b"));
    assert_eq!(percent_decode(&b("%2e%2E")), b(".."));
}

#[test]
fn percent_decode_malformed_left_alone() {
    assert_eq!(percent_decode(&b("100%")), b("100%"));
    assert_eq!(percent_decode(&b("%zz")), b("%zz"));
    assert_eq!(percent_decode(&b("%4")), b("%4"));
}

#[test]
fn split_on_slashes() {
    assert_eq!(split_components(&b("a/b/c")), comps(&["a", "b", "c"]));
    assert_eq!(split_components(&b("/a//b/")), comps(&["", "a", "", "b", ""]));
    assert_eq!(split_components(&b("")), comps(&[""]));
}

#[test]
fn normalize_drops_empty_and_dot() {
    let n = normalize_components(split_components(&b("/a/./b//c")));
    assert_eq!(n, comps(&["a", "b", "c"]));
}

#[test]
fn normalize_pops_on_parent() {
    let n = normalize_components(split_components(&b("a/b/../c")));
    assert_eq!(n, comps(&["a", "c"]));
    let n = normalize_components(split_components(&b("../../x")));
    assert_eq!(n, comps(&["x"]));
}

#[test]
fn normalize_idempotent() {
    let once = normalize_components(split_components(&b("/a/../b/./c//d/..")));
    let twice = normalize_components(once.clone());
    assert_eq!(once, twice);
}

#[test]
fn traversal_stays_under_root() {
    let root = comps(&["srv"]);
    let resolved = resolve_request(&root, &b("/a/../../etc/passwd"));
    assert_eq!(resolved, comps(&["srv", "etc", "passwd"]));
    assert_eq!(join_components(&resolved), b("/srv/etc/passwd"));
}

#[test]
fn traversal_percent_encoded_stays_under_root() {
    let root = comps(&["srv"]);
    // %2e%2e is `..`; %2F is a separator after decoding
    let resolved = resolve_request(&root, &b("/%2e%2e/%2e%2e/etc/passwd"));
    assert_eq!(resolved, comps(&["srv", "etc", "passwd"]));
    let resolved = resolve_request(&root, &b("/..%2F..%2Fetc%2Fpasswd"));
    assert_eq!(resolved, comps(&["srv", "etc", "passwd"]));
}

#[test]
fn resolve_ordinary_request() {
    let root = comps(&["home", "site", "client"]);
    let resolved = resolve_request(&root, &b("/js/main.js"));
    assert_eq!(join_components(&resolved), b("/home/site/client/js/main.js"));
}

#[test]
fn bytes_eq_compares_contents() {
    assert!(bytes_eq(&b("abc"), &b("abc")));
    assert!(!bytes_eq(&b("abc"), &b("abd")));
    assert!(!bytes_eq(&b("abc"), &b("ab")));
    assert!(bytes_eq(&b(""), &b("")));
}
