use cleancode::imports::{import_candidates, keep_existing};
use regex::Regex;

fn candidates(content: &str, base: &str, ext: &str) -> Vec<String> {
    import_candidates(content, base, ext).unwrap()
}

#[test]
fn relative_js_import_resolves_to_sibling_file() {
    let found = candidates("import foo from \"./util\"", "/proj/src", "js");
    assert_eq!(found, vec!["/proj/src/./util.js".to_string()]);
    let scan = keep_existing(&vec![(found[0].clone(), true)]);
    assert_eq!(scan.found, vec!["/proj/src/./util.js".to_string()]);
    assert!(scan.missing.is_empty());
}

#[test]
fn missing_import_is_reported_and_omitted() {
    let found = candidates("import foo from \"./util\"", "/proj/src", "js");
    let scan = keep_existing(&vec![(found[0].clone(), false)]);
    assert!(scan.found.is_empty());
    assert_eq!(scan.missing, vec!["/proj/src/./util.js".to_string()]);
}

#[test]
fn existing_and_missing_keep_their_order() {
    let probed = vec![
        ("a.js".to_string(), true),
        ("b.js".to_string(), false),
        ("c.js".to_string(), true),
        ("d.js".to_string(), false),
    ];
    let scan = keep_existing(&probed);
    assert_eq!(scan.found, vec!["a.js".to_string(), "c.js".to_string()]);
    assert_eq!(scan.missing, vec!["b.js".to_string(), "d.js".to_string()]);
}

#[test]
fn script_import_forms() {
    let text = "import a from './a'\nimport \"./side\";\nconst b = require('./b.ts');\n  import {x, y} from \"../lib/c\"\nlet z = 1;\nimport d from './d.json'";
    assert_eq!(
        candidates(text, "src", "ts"),
        vec![
            "src/./a.ts".to_string(),
            "src/./side.ts".to_string(),
            "src/./b.ts".to_string(),
            "src/../lib/c.ts".to_string(),
            "src/./d.json".to_string(),
        ]
    );
}

#[test]
fn one_import_per_line_in_document_order() {
    let text = "require('./x'); require('./y');\nrequire('./x')";
    assert_eq!(
        candidates(text, "", "js"),
        vec!["./x.js".to_string(), "./x.js".to_string()]
    );
}

#[test]
fn python_import_forms() {
    let text = "from pkg.mod import thing\nimport os\nimport   helpers\nx = 1\nfrom . import y";
    assert_eq!(
        candidates(text, "app", "py"),
        vec![
            "app/pkg.mod".to_string(),
            "app/os.py".to_string(),
            "app/helpers.py".to_string(),
            "app/y.py".to_string(),
        ]
    );
}

#[test]
fn absolute_import_stands_alone() {
    assert_eq!(candidates("import x from '/abs/x'", "src", "js"), vec!["/abs/x.js".to_string()]);
}

#[test]
fn extension_without_import_rule_gives_none() {
    assert_eq!(import_candidates("import x from './y'", "src", "rs"), None);
    assert_eq!(import_candidates("", "src", "js"), Some(vec![]));
}

fn first_capture(re: &Regex, line: &str) -> Option<String> {
    re.captures(line)
        .and_then(|c| c.get(1).or_else(|| c.get(2)))
        .map(|m| m.as_str().to_string())
}

#[test]
fn script_imports_agree_with_the_line_pattern() {
    let re = Regex::new(r#"(?m)^\s*import\s*(?:(?:.*?\s+from\s+)?["'](.+?)["'])|require\(["'](.+?)["']\)"#).unwrap();
    let lines = [
        "import a from './a'",
        "import * as b from \"b/c\"",
        "import './styles.css'",
        "  import {a, b} from 'lib/x';",
        "const m = require(\"./m\")",
        "let q = require('q') + require('r')",
        "import x from y",
        "no import here",
        "import a from ''",
        "require('')",
    ];
    for line in lines {
        let ours = candidates(line, "", "js");
        let expected: Vec<String> = first_capture(&re, line)
            .map(|m| {
                let p = m.clone();
                let name = p.rsplit('/').next().unwrap_or("");
                if name.rfind('.').map_or(true, |i| i == 0) { format!("{}.js", p) } else { p }
            })
            .into_iter()
            .collect();
        assert_eq!(ours, expected, "line {:?}", line);
    }
}

#[test]
fn python_imports_agree_with_the_line_pattern() {
    let re = Regex::new(r#"(?m)^\s*(?:from\s+([a-zA-Z_][a-zA-Z0-9_\.]*)\s+import\s+[a-zA-Z_][a-zA-Z0-9_\.]*)|(?:import\s+([a-zA-Z_][a-zA-Z0-9_\.]*))"#).unwrap();
    let lines = [
        "from a.b import c",
        "import os",
        "  import  sys",
        "x = 1  # import re",
        "from x import (a)",
        "from . import a",
        "import 9lives",
        "reimport z",
    ];
    for line in lines {
        let ours = candidates(line, "", "py");
        let expected: Vec<String> = first_capture(&re, line)
            .map(|m| if m.contains('.') { m } else { format!("{}.py", m) })
            .into_iter()
            .collect();
        assert_eq!(ours, expected, "line {:?}", line);
    }
}
