use cleancode::discovery::{default_exclusions, extension_selected, is_excluded};
use cleancode::paths::{extension, join, parent, with_extension};

#[test]
fn default_exclusions_are_dependency_and_build_dirs() {
    assert_eq!(default_exclusions(), vec!["node_modules".to_string(), "target".to_string(), "vendor".to_string()]);
}

#[test]
fn exclusion_matches_whole_leading_components() {
    let ex = default_exclusions();
    assert!(is_excluded("node_modules/pkg/index.js", &ex));
    assert!(is_excluded("target", &ex));
    assert!(is_excluded("vendor//lib/./x.py", &ex));
    assert!(!is_excluded("node_modules_extra/a.js", &ex));
    assert!(!is_excluded("src/node_modules/a.js", &ex));
    assert!(!is_excluded("./target/a.js", &ex));
    assert!(is_excluded("./build/a.js", &vec!["./build".to_string()]));
    assert!(is_excluded("/abs/dir/f.js", &vec!["/abs".to_string()]));
    assert!(!is_excluded("abs/dir/f.js", &vec!["/abs".to_string()]));
    assert!(!is_excluded("a.js", &vec![]));
}

#[test]
fn extension_filter() {
    assert!(extension_selected("a/b.js", Some("js,py")));
    assert!(extension_selected("b.py", Some("js,py")));
    assert!(!extension_selected("b.rs", Some("js,py")));
    assert!(!extension_selected("b.j", Some("js,py")));
    assert!(extension_selected("b.rs", None));
    assert!(!extension_selected("Makefile", None));
    assert!(!extension_selected(".bashrc", None));
}

#[test]
fn path_parts() {
    assert_eq!(extension("a/b.tar.gz"), Some("gz".to_string()));
    assert_eq!(extension("a.b/c"), None);
    assert_eq!(extension(".bashrc"), None);
    assert_eq!(extension("x."), Some("".to_string()));
    assert_eq!(extension(".."), None);
    assert_eq!(with_extension("a/b.js", "bak"), "a/b.bak");
    assert_eq!(with_extension("a/b", "bak"), "a/b.bak");
    assert_eq!(with_extension("a/b.bak", ""), "a/b");
    assert_eq!(with_extension(".bashrc", "bak"), ".bashrc.bak");
    assert_eq!(with_extension("dir/", "bak"), "dir/");
    assert_eq!(join("src", "x.js"), "src/x.js");
    assert_eq!(join("src/", "x.js"), "src/x.js");
    assert_eq!(join("", "x.js"), "x.js");
    assert_eq!(join("src", "/abs.js"), "/abs.js");
    assert_eq!(parent("a/b.js"), "a");
    assert_eq!(parent("b.js"), "");
    assert_eq!(parent("/b.js"), "/");
}
