use dekube::keys::{derive_key, join_key, split_filename, strip_path};
use dekube::resolve::expand_path;

fn key(parts: &[&str]) -> Vec<String> {
    parts.iter().map(|p| p.to_string()).collect()
}

#[test]
fn split_two_segments() {
    assert_eq!(split_filename("app/Dockerfile"), key(&["app", "Dockerfile"]));
}

#[test]
fn split_single_segment() {
    assert_eq!(split_filename("a.txt"), key(&["a.txt"]));
}

#[test]
fn split_backslash_matches_forward_slash() {
    assert_eq!(
        split_filename("sub\\dir\\c.txt"),
        split_filename("sub/dir/c.txt")
    );
    assert_eq!(split_filename("sub\\dir\\c.txt"), key(&["sub", "dir", "c.txt"]));
}

#[test]
fn split_mixed_separators() {
    assert_eq!(split_filename("a\\b/c"), key(&["a", "b", "c"]));
}

#[test]
fn split_drops_empty_segments() {
    assert_eq!(split_filename("a//b/"), key(&["a", "b"]));
    assert_eq!(split_filename("/a"), key(&["a"]));
    assert_eq!(split_filename(""), key(&[]));
    assert_eq!(split_filename("///"), key(&[]));
}

#[test]
fn join_two_segments() {
    assert_eq!(join_key(&key(&["app", "Dockerfile"])), "app/Dockerfile");
}

#[test]
fn join_single_and_empty() {
    assert_eq!(join_key(&key(&["a.txt"])), "a.txt");
    assert_eq!(join_key(&key(&[])), "");
}

#[test]
fn strip_under_root() {
    assert_eq!(
        strip_path("/root/app/Dockerfile", "/root"),
        Some("app/Dockerfile".to_string())
    );
}

#[test]
fn strip_path_equal_to_root() {
    assert_eq!(strip_path("/r", "/r"), Some("".to_string()));
}

#[test]
fn strip_outside_root() {
    assert_eq!(strip_path("/other/x", "/root"), None);
}

#[test]
fn strip_rejects_partial_last_component() {
    assert_eq!(strip_path("/ab", "/a"), None);
}

#[test]
fn strip_with_trailing_separator_on_root() {
    assert_eq!(strip_path("/a/b", "/a/"), Some("b".to_string()));
}

#[test]
fn strip_drops_repeated_separators() {
    assert_eq!(strip_path("/a//b", "/a"), Some("b".to_string()));
}

#[test]
fn derive_key_under_root() {
    assert_eq!(
        derive_key("/r/sub/b.txt", "/r"),
        Some(key(&["sub", "b.txt"]))
    );
}

#[test]
fn derive_key_normalizes_backslashes() {
    assert_eq!(
        derive_key("/r/sub\\b.txt", "/r"),
        Some(key(&["sub", "b.txt"]))
    );
}

#[test]
fn derive_key_outside_root() {
    assert_eq!(derive_key("/elsewhere/x", "/r"), None);
}

#[test]
fn split_inverts_join() {
    let k = key(&["app", "Dockerfile"]);
    assert_eq!(split_filename(&join_key(&k)), k);
    let single = key(&["a.txt"]);
    assert_eq!(split_filename(&join_key(&single)), single);
}

#[test]
fn derive_key_of_root_itself_is_empty() {
    assert_eq!(derive_key("/r", "/r"), Some(key(&[])));
}

#[test]
fn expand_path_without_shorthand_is_unchanged() {
    assert_eq!(expand_path("/plain/path"), "/plain/path");
    assert_eq!(expand_path(""), "");
    assert_eq!(expand_path("relative/dir"), "relative/dir");
}
