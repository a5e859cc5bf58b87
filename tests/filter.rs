use cleancode::filter::{count_lines, remove_debug_statements};
use cleancode::rules::{rule_for, LanguageRule};
use regex::Regex;

const SAMPLE: &str = "console.log(\"hi\");\nx = 1;\nprint(\"bye\")  # note";

#[test]
fn js_rule_removes_only_the_console_line() {
    let cleaned = remove_debug_statements(SAMPLE, "js");
    assert_eq!(cleaned, "x = 1;\nprint(\"bye\")  # note\n");
    assert_eq!(count_lines(SAMPLE) - count_lines(&cleaned), 1);
}

#[test]
fn py_rule_removes_print_with_its_comment() {
    let cleaned = remove_debug_statements(SAMPLE, "py");
    assert_eq!(cleaned, "console.log(\"hi\");\nx = 1;\n");
    assert_eq!(count_lines(SAMPLE) - count_lines(&cleaned), 1);
}

#[test]
fn ts_shares_the_js_rule() {
    assert_eq!(rule_for("ts"), LanguageRule::Script);
    assert_eq!(rule_for("js"), LanguageRule::Script);
    assert_eq!(rule_for("py"), LanguageRule::Python);
    assert_eq!(rule_for("rs"), LanguageRule::PassThrough);
    assert_eq!(rule_for(""), LanguageRule::PassThrough);
    assert_eq!(remove_debug_statements("  console.log(1) // x\nlet a;", "ts"), "let a;\n");
}

#[test]
fn unknown_extension_passes_through_unchanged() {
    let text = "console.log(1);\nprint(2)\nno final newline";
    assert_eq!(remove_debug_statements(text, "rs"), text);
    assert_eq!(remove_debug_statements("", "md"), "");
}

#[test]
fn removed_count_is_the_number_of_debug_lines() {
    let text = "a();\n  console.log('x');\nb();\nconsole.log(y); // trace\n\nc();";
    let cleaned = remove_debug_statements(text, "js");
    assert_eq!(cleaned, "a();\nb();\n\nc();\n");
    assert_eq!(count_lines(text), 6);
    assert_eq!(count_lines(&cleaned), 4);
}

#[test]
fn filtering_twice_changes_nothing() {
    let text = "print(1)\nx = 2\n    print('a')   # c\ny = print\n";
    let once = remove_debug_statements(text, "py");
    let twice = remove_debug_statements(&once, "py");
    assert_eq!(once, "x = 2\ny = print\n");
    assert_eq!(once, twice);
    assert_eq!(count_lines(&once) - count_lines(&twice), 0);
}

#[test]
fn embedded_debug_call_is_kept() {
    let text = "if (a) console.log(a);\nlet s = console.log;\nconsole.log(a) + 1;";
    assert_eq!(remove_debug_statements(text, "js"), "if (a) console.log(a);\nlet s = console.log;\nconsole.log(a) + 1;\n");
}

#[test]
fn crlf_line_endings_are_normalised() {
    let text = "a\r\nconsole.log(1);\r\nb";
    assert_eq!(remove_debug_statements(text, "js"), "a\nb\n");
    assert_eq!(count_lines(text), 3);
}

#[test]
fn empty_content_has_no_lines() {
    assert_eq!(count_lines(""), 0);
    assert_eq!(remove_debug_statements("", "js"), "");
    assert_eq!(count_lines("\n"), 1);
    assert_eq!(count_lines("a\n"), 1);
    assert_eq!(count_lines("a\n\nb"), 3);
}

fn agrees_with_pattern(pattern: &str, ext: &str, lines: &[&str]) {
    let re = Regex::new(pattern).unwrap();
    for line in lines {
        let removed = remove_debug_statements(line, ext).is_empty();
        assert_eq!(removed, re.is_match(line), "line {:?}", line);
    }
}

#[test]
fn script_rule_agrees_with_the_line_pattern() {
    agrees_with_pattern(
        r"(?m)^\s*console\.log\(.*?\);?\s*(//.*)?$",
        "js",
        &[
            "console.log(1)",
            "console.log(1);",
            "  console.log(\"a\", b);   ",
            "console.log(f(x)); // why",
            "console.log(f(x));; ",
            "console.log(a) x",
            "console.log(a) // (b) c",
            "console.log(\"http://x\")",
            "console.log(",
            "console.logx(1)",
            "xconsole.log(1)",
            "\tconsole.log()//",
            "console.log()/ /",
            "console.log)(",
        ],
    );
}

#[test]
fn python_rule_agrees_with_the_line_pattern() {
    agrees_with_pattern(
        r"(?m)^\s*print\(.*?\)\s*(#.*)?$",
        "py",
        &[
            "print(1)",
            "print(1)  # note",
            "   print('a', b)",
            "print(1);",
            "print (1)",
            "print(f(x)) #",
            "print(a) b",
            "print(a) # (b) c",
            "printx(1)",
            "print(",
            "\u{a0}print(1)\u{3000}",
        ],
    );
}

#[test]
fn debug_call_followed_by_code_is_kept() {
    assert_eq!(remove_debug_statements("console.log(a); foo(b)", "js"), "console.log(a); foo(b)\n");
    assert_eq!(remove_debug_statements("print(a) or f(b)", "py"), "print(a) or f(b)\n");
    assert_eq!(remove_debug_statements("console.log(a))", "js"), "console.log(a))\n");
    assert_eq!(remove_debug_statements("console.log(f(g(x)));", "js"), "");
    assert_eq!(remove_debug_statements("print((1, 2))  # pair", "py"), "");
    assert_eq!(remove_debug_statements("console.log(a) // then f(b)", "js"), "");
}

#[test]
fn parentheses_inside_strings_do_not_count() {
    assert_eq!(remove_debug_statements("console.log(\")\")", "js"), "");
    assert_eq!(remove_debug_statements("console.log(':)');", "js"), "");
    assert_eq!(remove_debug_statements("console.log(`(${x}`) // t", "ts"), "");
    assert_eq!(remove_debug_statements("console.log(\"a\\\")\", b)", "js"), "");
    assert_eq!(remove_debug_statements("print(\"(\")", "py"), "");
    assert_eq!(remove_debug_statements("print('x)', f(y))  # n", "py"), "");
    assert_eq!(remove_debug_statements("console.log(\"x\"); foo(\")\")", "js"), "console.log(\"x\"); foo(\")\")\n");
    assert_eq!(remove_debug_statements("print(`(`)", "py"), "print(`(`)\n");
    assert_eq!(remove_debug_statements("console.log(a); foo(b)", "js"), "console.log(a); foo(b)\n");
}

#[test]
fn refiltering_removes_no_line_even_after_a_bare_carriage_return() {
    let text = "x\r\r\nconsole.log(1)\r\nprint(2)\r";
    let once = remove_debug_statements(text, "js");
    assert_eq!(once, "x\r\nprint(2)\r\n");
    let twice = remove_debug_statements(&once, "js");
    assert_eq!(count_lines(&once) - count_lines(&twice), 0);
}
