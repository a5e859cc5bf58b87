use cleancode::imports::keep_existing;
use cleancode::traversal::{Options, Traversal, Visit};
use std::collections::HashMap;

/// Drops the `./` pieces that joining relative imports leaves, as a
/// canonical path would.
fn canonical(p: &str) -> String {
    let mut s = p.replace("/./", "/");
    while let Some(rest) = s.strip_prefix("./") {
        s = rest.to_string();
    }
    s
}

/// Runs a traversal over an in-memory tree and returns the visited paths in
/// order, the run's totals, and what would be written.
fn run_excluding(
    files: &HashMap<&str, &str>,
    roots: &[&str],
    options: Options,
    exclusions: Vec<String>,
) -> (Vec<String>, usize, usize, Vec<(String, String)>) {
    let mut t = Traversal::new(options, exclusions);
    let mut order = Vec::new();
    let mut writes = Vec::new();
    for root in roots {
        t.add_root(root.to_string());
        while let Some(visit) = t.next_file() {
            let (path, ext) = match visit {
                Visit::Read { path, extension } => (path, extension),
                Visit::NoExtension { path } => {
                    order.push(path);
                    continue;
                }
            };
            order.push(path.clone());
            let Some(content) = files.get(path.as_str()) else { continue };
            let work = t.read(&path, &ext, content);
            if let Some(b) = work.backup {
                writes.push((b.path.clone(), b.text.clone()));
                writes.push((path.clone(), work.cleaned.clone()));
            }
            let probed: Vec<(String, bool)> = work
                .imports
                .iter()
                .map(|c| {
                    let c = canonical(c);
                    let exists = files.contains_key(c.as_str());
                    (c, exists)
                })
                .collect();
            t.follow(keep_existing(&probed).found);
        }
    }
    (order, t.files_processed(), t.statements_removed(), writes)
}

fn run(
    files: &HashMap<&str, &str>,
    roots: &[&str],
    options: Options,
) -> (Vec<String>, usize, usize, Vec<(String, String)>) {
    run_excluding(files, roots, options, Vec::new())
}

fn follow_dry() -> Options {
    Options { dry_run: true, verbose: false, follow_imports: true }
}

#[test]
fn cyclic_imports_visit_each_file_once() {
    let files: HashMap<&str, &str> = [
        ("src/a.js", "import b from './b'\nconsole.log('a');\n"),
        ("src/b.js", "import a from './a'\nconsole.log('b');\nconsole.log('c');\n"),
    ]
    .into_iter()
    .collect();
    let (order, count, removed, writes) = run(&files, &["src/a.js"], follow_dry());
    assert_eq!(order, vec!["src/a.js".to_string(), "src/b.js".to_string()]);
    assert_eq!(count, 2);
    assert_eq!(removed, 3);
    assert!(writes.is_empty());
}

#[test]
fn imports_are_followed_depth_first_in_order() {
    let files: HashMap<&str, &str> = [
        ("m.py", "import a\nimport c\n"),
        ("a.py", "import b\n"),
        ("b.py", "print(1)\n"),
        ("c.py", "x = 1\n"),
    ]
    .into_iter()
    .collect();
    let (order, count, removed, _) = run(&files, &["m.py"], follow_dry());
    assert_eq!(order, vec!["m.py", "a.py", "b.py", "c.py"]);
    assert_eq!(count, 4);
    assert_eq!(removed, 1);
}

#[test]
fn roots_already_visited_are_skipped() {
    let files: HashMap<&str, &str> = [
        ("a.js", "require('./b')\n"),
        ("b.js", "console.log(1)\n"),
    ]
    .into_iter()
    .collect();
    let (order, count, _, _) = run(&files, &["a.js", "b.js", "a.js"], follow_dry());
    assert_eq!(order, vec!["a.js", "b.js"]);
    assert_eq!(count, 2);
}

#[test]
fn imports_are_not_followed_unless_asked() {
    let files: HashMap<&str, &str> = [("a.js", "require('./b')\n"), ("b.js", "x\n")].into_iter().collect();
    let options = Options { dry_run: true, verbose: false, follow_imports: false };
    let (order, _, _, _) = run(&files, &["a.js"], options);
    assert_eq!(order, vec!["a.js"]);
}

#[test]
fn file_without_extension_is_skipped() {
    let files: HashMap<&str, &str> = [("Makefile", "print(1)\n")].into_iter().collect();
    let (order, count, _, _) = run(&files, &["Makefile"], follow_dry());
    assert_eq!(order, vec!["Makefile"]);
    assert_eq!(count, 0);
}

#[test]
fn real_run_backs_up_before_writing() {
    let files: HashMap<&str, &str> = [("w.ts", "console.log(1);\nlet x = 2;\n")].into_iter().collect();
    let options = Options { dry_run: false, verbose: false, follow_imports: false };
    let (_, count, removed, writes) = run(&files, &["w.ts"], options);
    assert_eq!(count, 1);
    assert_eq!(removed, 1);
    assert_eq!(writes.len(), 2);
    assert_eq!(writes[0].0, "w.bak");
    assert!(writes[0].1.ends_with(" */\nconsole.log(1);\nlet x = 2;"));
    assert_eq!(writes[1], ("w.ts".to_string(), "let x = 2;\n".to_string()));
}

#[test]
fn unsupported_extension_is_counted_but_not_followed() {
    let files: HashMap<&str, &str> = [("notes.md", "import x from './y'\n")].into_iter().collect();
    let (order, count, removed, _) = run(&files, &["notes.md"], follow_dry());
    assert_eq!(order, vec!["notes.md"]);
    assert_eq!((count, removed), (1, 0));
}

#[test]
fn excluded_imports_are_never_visited() {
    let files: HashMap<&str, &str> = [
        ("app/main.js", "import x from '../node_modules/x/index'\nimport y from './y'\n"),
        ("node_modules/x/index.js", "console.log(1)\n"),
        ("app/y.js", "console.log(2)\n"),
    ]
    .into_iter()
    .collect();
    fn resolve(p: &str) -> String {
        p.replace("app/../", "")
    }
    let mut t = Traversal::new(follow_dry(), vec!["node_modules".to_string()]);
    let mut order = Vec::new();
    t.add_root("app/main.js".to_string());
    while let Some(Visit::Read { path, extension }) = t.next_file() {
        order.push(path.clone());
        let work = t.read(&path, &extension, files[path.as_str()]);
        let probed: Vec<(String, bool)> = work
            .imports
            .iter()
            .map(|c| {
                let c = resolve(&canonical(c));
                let exists = files.contains_key(c.as_str());
                (c, exists)
            })
            .collect();
        t.follow(keep_existing(&probed).found);
    }
    assert_eq!(order, vec!["app/main.js", "app/y.js"]);
    assert_eq!(t.statements_removed(), 1);
}
