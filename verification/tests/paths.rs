use watchmux::path::{
    check_canonical, names_start_with, path_is_within, relative_to, resolve_pattern, split_names,
    starts_at_root,
};

fn strings(items: &[&str]) -> Vec<String> {
    items.iter().map(|s| s.to_string()).collect()
}

#[test]
fn names_of_a_plain_path() {
    assert_eq!(split_names("/a/b/c"), strings(&["a", "b", "c"]));
    assert_eq!(split_names("a"), strings(&["a"]));
}

#[test]
fn names_skip_empty_runs_and_single_dots() {
    assert_eq!(split_names("/a//b/./c/"), strings(&["a", "b", "c"]));
    assert_eq!(split_names("./a/."), strings(&["a"]));
    assert_eq!(split_names("/"), Vec::<String>::new());
    assert_eq!(split_names(""), Vec::<String>::new());
    assert_eq!(split_names("."), Vec::<String>::new());
    assert_eq!(split_names("///"), Vec::<String>::new());
}

#[test]
fn names_keep_double_dots_and_dotted_names() {
    assert_eq!(split_names("/a/../b"), strings(&["a", "..", "b"]));
    assert_eq!(split_names("/.git/.x"), strings(&[".git", ".x"]));
    assert_eq!(split_names("/a/..."), strings(&["a", "..."]));
}

#[test]
fn names_of_text_beyond_ascii() {
    assert_eq!(split_names("/données/é/日本"), strings(&["données", "é", "日本"]));
}

#[test]
fn prefix_of_names() {
    assert!(names_start_with(&strings(&["a", "b"]), &strings(&["a"])));
    assert!(names_start_with(&strings(&["a", "b"]), &strings(&["a", "b"])));
    assert!(names_start_with(&strings(&["a", "b"]), &strings(&[])));
    assert!(!names_start_with(&strings(&["a"]), &strings(&["a", "b"])));
    assert!(!names_start_with(&strings(&["a", "b"]), &strings(&["b"])));
}

#[test]
fn within_goes_by_whole_names() {
    assert!(path_is_within("/a/b", "/a"));
    assert!(path_is_within("/a", "/a"));
    assert!(path_is_within("/a/b/c", "/a/b/"));
    assert!(path_is_within("/a", "/"));
    assert!(!path_is_within("/a/bc", "/a/b"));
    assert!(!path_is_within("/a", "/a/b"));
    assert!(!path_is_within("/b/a", "/a"));
}

#[test]
fn relative_path_is_what_follows_the_base() {
    assert_eq!(relative_to("/proj/src/a.rs", "/proj"), Some("src/a.rs".to_string()));
    assert_eq!(relative_to("/proj/a", "/proj"), Some("a".to_string()));
    assert_eq!(relative_to("/proj", "/proj"), Some(String::new()));
    assert_eq!(relative_to("/proj/x/y/z", "/"), Some("proj/x/y/z".to_string()));
    assert_eq!(relative_to("/proj//x/./y", "/proj"), Some("x/y".to_string()));
}

#[test]
fn relative_path_outside_the_base_is_none() {
    assert_eq!(relative_to("/other/a", "/proj"), None);
    assert_eq!(relative_to("/project/a", "/proj"), None);
    assert_eq!(relative_to("/", "/proj"), None);
}

#[test]
fn absolute_texts_begin_with_a_separator() {
    assert!(starts_at_root("/"));
    assert!(starts_at_root("/a"));
    assert!(!starts_at_root(""));
    assert!(!starts_at_root("a/b"));
    assert!(!starts_at_root("./a"));
}

#[test]
fn canonical_paths() {
    assert!(check_canonical("/"));
    assert!(check_canonical("/proj"));
    assert!(check_canonical("/a/b/c"));
    assert!(check_canonical("/a/.hidden/b..c"));
}

#[test]
fn paths_that_are_not_canonical() {
    assert!(!check_canonical(""));
    assert!(!check_canonical("proj"));
    assert!(!check_canonical("/proj/"));
    assert!(!check_canonical("/a//b"));
    assert!(!check_canonical("/a/./b"));
    assert!(!check_canonical("/a/../b"));
    assert!(!check_canonical("/.."));
    assert!(!check_canonical("//"));
    assert!(!check_canonical("./a"));
}

#[test]
fn relative_patterns_are_appended_to_the_root() {
    assert_eq!(resolve_pattern("/proj", "src/**"), "/proj/src/**");
    assert_eq!(resolve_pattern("/proj", "*.txt"), "/proj/*.txt");
    assert_eq!(resolve_pattern("/", "a/b"), "/a/b");
}

#[test]
fn absolute_patterns_stand_for_themselves() {
    assert_eq!(resolve_pattern("/proj", "/other/*.rs"), "/other/*.rs");
    assert_eq!(resolve_pattern("/proj", "/"), "/");
}

#[test]
fn resolved_patterns_are_tidied() {
    assert_eq!(resolve_pattern("/proj", "./src//lib.rs"), "/proj/src/lib.rs");
    assert_eq!(resolve_pattern("/proj", "src/"), "/proj/src/");
    assert_eq!(resolve_pattern("/proj", ""), "/proj/");
    assert_eq!(resolve_pattern("/proj", "../up"), "/proj/../up");
    assert_eq!(resolve_pattern("/proj", "a/."), "/proj/a");
    assert_eq!(resolve_pattern("/", ""), "/");
}

#[test]
fn exactly_two_leading_separators_are_kept() {
    assert_eq!(resolve_pattern("/proj", "//abs/x"), "//abs/x");
    assert_eq!(resolve_pattern("/proj", "//abs//x/./y/"), "//abs/x/y/");
    assert_eq!(resolve_pattern("/proj", "//"), "//");
    assert_eq!(resolve_pattern("/proj", "///abs/x"), "/abs/x");
    assert_eq!(resolve_pattern("/proj", "////abs"), "/abs");
    assert_eq!(resolve_pattern("/", "x"), "/x");
    assert_eq!(resolve_pattern("/proj/", "x"), "/proj/x");
    assert_eq!(split_names("//abs/x"), strings(&["abs", "x"]));
}
