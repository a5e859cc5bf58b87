use cleancode::stats::{line_stats, total_stats, LineStats};

#[test]
fn lines_are_classified() {
    let text = "let a = 1;\n\n  console.log(a);\n{\n}\n,\n;\n// note\n/* open\ninside\n*/\nprint(2)\ncode();";
    let s = line_stats(text);
    assert_eq!(s.total_lines, 13);
    assert_eq!(s.real_code_lines, 2);
    assert_eq!(s.debug_lines, 2);
    assert_eq!(s.empty_lines, 1);
    assert_eq!(s.brace_lines, 2);
    assert_eq!(s.comma_lines, 1);
    assert_eq!(s.semicolon_lines, 1);
    assert_eq!(s.comment_lines, 4);
}

#[test]
fn punctuation_inside_a_block_comment_keeps_its_kind() {
    let s = line_stats("/*\n}\nprint\n*/\nx");
    assert_eq!((s.comment_lines, s.brace_lines, s.debug_lines, s.real_code_lines), (2, 1, 1, 1));
}

#[test]
fn totals_add_fieldwise() {
    let a = line_stats("x\n\nprint(1)");
    let b = line_stats("{\ny");
    let t = total_stats(&vec![a, b]).unwrap();
    assert_eq!(t.total_lines, 5);
    assert_eq!(t.real_code_lines, 2);
    assert_eq!(t.empty_lines, 1);
    assert_eq!(t.debug_lines, 1);
    assert_eq!(t.brace_lines, 1);
    assert_eq!(total_stats(&vec![]).unwrap(), line_stats(""));
}

#[test]
fn totals_that_overflow_give_none() {
    let big = LineStats {
        total_lines: usize::MAX,
        real_code_lines: 0,
        debug_lines: 0,
        empty_lines: 0,
        brace_lines: 0,
        comma_lines: 0,
        semicolon_lines: 0,
        comment_lines: 0,
    };
    assert_eq!(total_stats(&vec![big, line_stats("x")]), None);
}
