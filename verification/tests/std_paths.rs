use std::path::Path;

use watchmux::path::{path_is_within, relative_to, resolve_pattern, split_names};

const TEXTS: [&str; 14] = [
    "/",
    "/a",
    "/a/b",
    "/a/b/c.txt",
    "/a/bc",
    "/a/b/",
    "/a//b",
    "/a/./b",
    "/a/../b",
    "/ab",
    "/b/a",
    "/a/b/c/d/e",
    "/.hidden/x",
    "/a/b/..",
];

#[test]
fn names_agree_with_the_components_of_std() {
    for text in TEXTS {
        let expected: Vec<String> = Path::new(text)
            .components()
            .skip(1)
            .map(|c| c.as_os_str().to_string_lossy().into_owned())
            .collect();
        assert_eq!(split_names(text), expected, "names of {text:?}");
    }
}

#[test]
fn within_agrees_with_starts_with_of_std() {
    for path in TEXTS {
        for base in TEXTS {
            assert_eq!(
                path_is_within(path, base),
                Path::new(path).starts_with(base),
                "{path:?} within {base:?}"
            );
        }
    }
}

#[test]
fn relative_agrees_with_strip_prefix_of_std() {
    let plain = ["/", "/a", "/a/b", "/a/b/c.txt", "/a/bc", "/ab", "/b/a", "/a/b/c/d/e"];
    for path in plain {
        for base in TEXTS {
            let expected = Path::new(path)
                .strip_prefix(base)
                .ok()
                .map(|rest| rest.to_string_lossy().into_owned());
            assert_eq!(relative_to(path, base), expected, "{path:?} from {base:?}");
        }
    }
}

#[test]
fn resolve_agrees_with_join_and_absolute_of_std() {
    let roots = ["/", "/proj", "/proj/sub"];
    let patterns = [
        "src/**",
        "*.txt",
        "",
        ".",
        "./a",
        "a/./b",
        "a//b",
        "a/",
        "a/b/",
        "../up",
        "a/../b",
        "/abs/*.rs",
        "/abs/",
        "/",
        "tmp/*",
        "x[y",
        "a/.",
        "//abs/x",
        "//abs//x/",
        "//",
        "///abs/x",
        "//a/./b",
    ];
    for root in roots {
        for pattern in patterns {
            let expected = std::path::absolute(Path::new(root).join(pattern))
                .unwrap()
                .to_string_lossy()
                .into_owned();
            assert_eq!(resolve_pattern(root, pattern), expected, "{pattern:?} from {root:?}");
        }
    }
}
