use cleancode::backup::{
    backup_path, backup_text_for, create_backup, plan_restore, restore_decision, RestoreError,
    RestoreStep,
};

#[test]
fn backup_then_restore_gives_the_content_back() {
    let content = "let a = 1;\nconsole.log(a);";
    let artifact = create_backup(content, "src/app.js");
    assert_eq!(artifact.path, "src/app.bak");
    let plan = plan_restore("src/app.js", Some(&artifact.text)).ok().unwrap();
    assert_eq!(plan.target, "src/app.js");
    assert_eq!(plan.content, content);
    assert_eq!(plan.backup_path, "src/app.bak");
}

#[test]
fn restore_from_the_backup_path_itself() {
    let text = backup_text_for("x = 1", "lib/mod.py", "id", "2024-01-01T00:00:00+00:00");
    let plan = plan_restore("lib/mod.bak", Some(&text)).ok().unwrap();
    assert_eq!(plan.target, "lib/mod.py");
    assert_eq!(plan.content, "x = 1");
}

#[test]
fn backup_text_layout() {
    let text = backup_text_for("body  \n\n", "a/b.ts", "ID", "T");
    assert_eq!(
        text,
        "/* Backup created by CleanCode tool - 0.1.0\n * Original file: a/b.ts\n * Original extension: ts\n * Unique ID: ID\n * Timestamp: T\n */\nbody"
    );
}

#[test]
fn backup_of_file_without_extension() {
    let text = backup_text_for("data", "Makefile", "i", "t");
    assert!(text.contains(" * Original extension: \n"));
    assert_eq!(backup_path("Makefile"), "Makefile.bak");
    let plan = plan_restore("Makefile", Some(&text)).ok().unwrap();
    assert_eq!(plan.target, "Makefile");
    assert_eq!(plan.content, "data");
}

#[test]
fn fresh_backups_carry_an_identifier_and_a_time() {
    let a = create_backup("x", "f.js");
    let b = create_backup("x", "f.js");
    assert_eq!(a.id.len(), 36);
    assert_ne!(a.id, b.id);
    assert!(!a.timestamp.is_empty());
    assert!(a.text.contains(&format!(" * Unique ID: {}\n", a.id)));
    assert!(a.text.contains(&format!(" * Timestamp: {}\n", a.timestamp)));
    assert!(a.text.ends_with(" */\nx"));
}

#[test]
fn missing_backup_is_not_found() {
    assert_eq!(plan_restore("a.js", None).err(), Some(RestoreError::NotFound));
}

#[test]
fn unreadable_header_is_an_invalid_signature() {
    assert_eq!(plan_restore("a.js", Some("just text")).err(), Some(RestoreError::InvalidSignature));
    let no_end = "/* Backup created by CleanCode tool - 0.1.0\n * Original file: a.js\n * Original extension: js\n * Unique ID: i\n * Timestamp: t\nbody";
    assert_eq!(plan_restore("a.js", Some(no_end)).err(), Some(RestoreError::InvalidSignature));
    assert_eq!(RestoreError::InvalidSignature.message(), "Invalid backup signature");
}

#[test]
fn content_holding_the_end_token_survives() {
    let content = "/* a */\nb */ c";
    let text = backup_text_for(content, "x.js", "i", "t");
    let plan = plan_restore("x.js", Some(&text)).ok().unwrap();
    assert_eq!(plan.content, content);
}

#[test]
fn existing_target_needs_force_or_dry_run() {
    assert_eq!(restore_decision(true, false, false), Err(RestoreError::AlreadyExists));
    assert_eq!(restore_decision(true, true, false), Ok(RestoreStep::Write));
    assert_eq!(restore_decision(true, false, true), Ok(RestoreStep::Simulate));
    assert_eq!(restore_decision(false, false, false), Ok(RestoreStep::Write));
}

#[test]
fn dry_run_never_writes() {
    for exists in [false, true] {
        for force in [false, true] {
            assert_eq!(restore_decision(exists, force, true), Ok(RestoreStep::Simulate));
        }
    }
}

#[test]
fn path_with_line_feed_round_trips() {
    let path = "d/a\nb.js";
    let text = backup_text_for("x = 1", path, "i", "t");
    assert!(text.contains(" * Original file: d/a\\nb.js\n"));
    let plan = plan_restore(path, Some(&text)).ok().unwrap();
    assert_eq!(plan.target, path);
    assert_eq!(plan.content, "x = 1");
    assert_eq!(plan.backup_path, "d/a\nb.bak");
}

#[test]
fn extension_with_backslash_and_line_feed_round_trips() {
    let path = "d/a.j\\s\nx";
    let text = backup_text_for("y", path, "i", "t");
    assert!(text.contains(" * Original extension: j\\\\s\\nx\n"));
    let plan = plan_restore(path, Some(&text)).ok().unwrap();
    assert_eq!(plan.target, path);
    assert_eq!(plan.content, "y");
}
