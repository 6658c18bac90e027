use willo::path::normalize;

#[test]
fn normalize_relative_with_dots() {
    assert_eq!(normalize("/etc", "../proc/./uptime"), "/proc/uptime");
}

#[test]
fn normalize_cannot_climb_above_root() {
    assert_eq!(normalize("/", "../.."), "/");
}

#[test]
fn normalize_absolute_ignores_cwd() {
    assert_eq!(normalize("/etc", "/bin"), "/bin");
}

#[test]
fn normalize_dot_is_cwd() {
    assert_eq!(normalize("/", "."), "/");
    assert_eq!(normalize("/etc", "."), "/etc");
}

#[test]
fn normalize_collapses_slash_runs() {
    assert_eq!(normalize("/", "//tmp///log//"), "/tmp/log");
    assert_eq!(normalize("/a//b/", "c"), "/a/b/c");
}

#[test]
fn normalize_is_idempotent_on_examples() {
    let once = normalize("/etc/x", "../../a/./b/../c");
    assert_eq!(once, "/a/c");
    assert_eq!(normalize("/somewhere", &once), once);
}

#[test]
fn normalize_empty_input_is_cwd() {
    assert_eq!(normalize("/tmp", ""), "/tmp");
}
