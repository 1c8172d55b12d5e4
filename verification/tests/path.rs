use kernel_fs::error::Error;
use kernel_fs::path::{build_normalized_path, has_drive_prefix, normalize_path, path_segments};

fn normalized(path: &str, cwd: &str) -> String {
    normalize_path(path, cwd).expect("normalize")
}

#[test]
fn paths_become_absolute_and_canonical() {
    assert_eq!(normalized("/", "/"), "/");
    assert_eq!(normalized("/a//b/./c", "/"), "/a/b/c");
    assert_eq!(normalized("b/../c", "/a"), "/a/c");
    assert_eq!(normalized("../../..", "/a/b"), "/");
    assert_eq!(normalized("  x  ", " /home "), "/home/x");
    assert_eq!(normalized(".", "/home/"), "/home");
}

#[test]
fn normalizing_again_changes_nothing() {
    for path in ["/", "a/b", "../x", "/a/./b/../c/", "..."] {
        let once = normalized(path, "/home/user");
        assert_eq!(normalized(&once, "/elsewhere"), once);
    }
}

#[test]
fn white_space_at_the_end_of_a_result_goes_in_the_next_round() {
    let once = normalized("/x /y/..", "/");
    assert_eq!(once, "/x ");
    assert_eq!(normalized(&once, "/"), "/x");
}

#[test]
fn misspelled_paths_are_refused() {
    for path in ["", "  ", "a\\b", "a\nb", "a\u{7f}", "C:", "C:/x", "c:x"] {
        assert_eq!(normalize_path(path, "/"), Err(Error::InvalidArgument), "{:?}", path);
    }
    assert_eq!(normalize_path("a", "relative"), Err(Error::InvalidArgument));
    assert_eq!(normalize_path("/a", ""), Err(Error::InvalidArgument));
}

#[test]
fn drive_prefixes_are_recognised() {
    assert!(has_drive_prefix("C:"));
    assert!(has_drive_prefix("z:/x"));
    assert!(!has_drive_prefix("/C:"));
    assert!(!has_drive_prefix("1:"));
    assert!(!has_drive_prefix("C"));
}

#[test]
fn segments_and_parts() {
    let parts = path_segments("//a/b//c/");
    assert_eq!(parts, ["a", "b", "c"]);
    assert_eq!(build_normalized_path(&parts), "/a/b/c");
    assert_eq!(build_normalized_path(&Vec::new()), "/");
}
