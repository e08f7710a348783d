use declair::EditError;
use declair::block::list_entries;
use declair::block::locate_block;
use declair::edit::insert_entry;
use declair::edit::join_lines;
use declair::edit::remove_entry;
use declair::edit::split_lines;

fn doc(lines: &[&str]) -> Vec<String> {
    lines.iter().map(|l| l.to_string()).collect()
}

#[test]
fn locate_and_list_single_line() {
    let lines = doc(&["with pkgs; [ a b ]"]);
    let (s, e) = locate_block(&lines).unwrap();
    assert_eq!((s, e), (0, 0));
    assert_eq!(list_entries(&lines, s, e), doc(&["a", "b"]));
}

#[test]
fn locate_and_list_multi_line_skips_blank_and_comment_lines() {
    let lines = doc(&["with pkgs; [", "  a", "", "  # c", "  // d", "  b", "];"]);
    let (s, e) = locate_block(&lines).unwrap();
    assert_eq!((s, e), (0, 6));
    assert_eq!(list_entries(&lines, s, e), doc(&["a", "b"]));
}

#[test]
fn list_keeps_duplicates_and_order() {
    let lines = doc(&["with pkgs; [", "  b", "  a", "  b extra", "];"]);
    let (s, e) = locate_block(&lines).unwrap();
    assert_eq!(list_entries(&lines, s, e), doc(&["b", "a", "b"]));
}

#[test]
fn insert_then_list_multi_line_appends() {
    let lines = doc(&["{", "  with pkgs; [", "    git", "  ];", "}"]);
    let out = insert_entry(&lines, "vim").unwrap();
    let (s, e) = locate_block(&out).unwrap();
    assert_eq!(list_entries(&out, s, e), doc(&["git", "vim"]));
}

#[test]
fn split_lines_cuts_at_newlines() {
    assert_eq!(split_lines("a\nb"), doc(&["a", "b"]));
    assert_eq!(split_lines("a\nb\n"), doc(&["a", "b"]));
    assert_eq!(split_lines("a\r\nb\r\n"), doc(&["a", "b"]));
    assert_eq!(split_lines("a\n\nb"), doc(&["a", "", "b"]));
    assert_eq!(split_lines(""), doc(&[]));
    assert_eq!(split_lines("\n"), doc(&[""]));
}

#[test]
fn insert_scenario_doubles_closing_indentation() {
    let lines = split_lines("{\n  with pkgs; [\n    git\n  ];\n}\n");
    assert_eq!(lines, doc(&["{", "  with pkgs; [", "    git", "  ];", "}"]));
    let out = insert_entry(&lines, "vim").unwrap();
    assert_eq!(out, doc(&["{", "  with pkgs; [", "    git", "    vim", "  ];", "}"]));
    assert_eq!(
        join_lines(&out),
        "{\n  with pkgs; [\n    git\n    vim\n  ];\n}"
    );
}

#[test]
fn insert_single_line_with_spaced_bracket() {
    let lines = doc(&["with pkgs; [ git ]"]);
    let out = insert_entry(&lines, "vim").unwrap();
    assert_eq!(out, doc(&["with pkgs; [ git vim ]"]));
}

#[test]
fn insert_single_line_empty_brackets() {
    let lines = doc(&["with pkgs; []"]);
    let out = insert_entry(&lines, "git").unwrap();
    assert_eq!(out, doc(&["with pkgs; [ git ]"]));
}

#[test]
fn insert_single_line_unspaced_bracket() {
    let lines = doc(&["with pkgs; [git]"]);
    let out = insert_entry(&lines, "vim").unwrap();
    assert_eq!(out, doc(&["with pkgs; [git vim ]"]));
}

#[test]
fn insert_twice_fails_with_already_present() {
    let lines = doc(&["with pkgs; [", "  git", "];"]);
    let once = insert_entry(&lines, "vim").unwrap();
    assert_eq!(insert_entry(&once, "vim"), Err(EditError::EntryAlreadyPresent));
}

#[test]
fn insert_rejects_substring_of_existing_entry() {
    let lines = doc(&["with pkgs; [", "  gitfull", "];"]);
    assert_eq!(insert_entry(&lines, "git"), Err(EditError::EntryAlreadyPresent));
}

#[test]
fn insert_duplicate_check_covers_the_marker_line() {
    let lines = doc(&["with pkgs; [", "  git", "];"]);
    assert_eq!(insert_entry(&lines, "pkgs"), Err(EditError::EntryAlreadyPresent));
}

#[test]
fn remove_scenario_single_line() {
    // File content "with pkgs; [ git vim ]".
    let lines = doc(&["with pkgs; [ git vim ]"]);
    let out = remove_entry(&lines, "git").unwrap();
    assert_eq!(out, doc(&["with pkgs; [ vim ]"]));
}

#[test]
fn remove_then_list_multi_line() {
    let lines = doc(&["with pkgs; [", "  git", "  vim", "];"]);
    let out = remove_entry(&lines, "git").unwrap();
    assert_eq!(out, doc(&["with pkgs; [", "  vim", "];"]));
    let (s, e) = locate_block(&out).unwrap();
    assert_eq!(list_entries(&out, s, e), doc(&["vim"]));
}

#[test]
fn remove_multi_line_deletes_only_the_first_matching_line() {
    let lines = doc(&["with pkgs; [", "  git", "  vim", "  git", "];"]);
    let out = remove_entry(&lines, "git").unwrap();
    assert_eq!(out, doc(&["with pkgs; [", "  vim", "  git", "];"]));
}

#[test]
fn remove_single_line_drops_every_occurrence() {
    let lines = doc(&["with pkgs; [ git x git ]"]);
    let out = remove_entry(&lines, "git").unwrap();
    assert_eq!(out, doc(&["with pkgs; [ x ]"]));
}

#[test]
fn remove_last_single_line_entry_leaves_empty_brackets() {
    let lines = doc(&["with pkgs; [ git ]"]);
    let out = remove_entry(&lines, "git").unwrap();
    assert_eq!(out, doc(&["with pkgs; [  ]"]));
}

#[test]
fn remove_missing_entry_fails_with_not_found() {
    let lines = doc(&["with pkgs; [", "  git", "];"]);
    assert_eq!(remove_entry(&lines, "vim"), Err(EditError::EntryNotFound));
    let single = doc(&["with pkgs; [ git ]"]);
    assert_eq!(remove_entry(&single, "vim"), Err(EditError::EntryNotFound));
}

#[test]
fn remove_requires_exact_token_match() {
    let lines = doc(&["with pkgs; [", "  gitfull", "];"]);
    assert_eq!(remove_entry(&lines, "git"), Err(EditError::EntryNotFound));
}

#[test]
fn missing_marker_fails_everywhere() {
    // File content with no "with pkgs; [" substring anywhere.
    let lines = doc(&["{", "  packages = [ git ];", "}"]);
    assert_eq!(locate_block(&lines), Err(EditError::BlockNotFound));
    assert_eq!(insert_entry(&lines, "vim"), Err(EditError::BlockNotFound));
    assert_eq!(remove_entry(&lines, "vim"), Err(EditError::BlockNotFound));
}

#[test]
fn missing_closing_bracket_fails() {
    let lines = doc(&["with pkgs; [", "  git"]);
    assert_eq!(locate_block(&lines), Err(EditError::BlockNotFound));
}

#[test]
fn inverted_brackets_on_block_line_are_malformed_for_removal() {
    let lines = doc(&["] with pkgs; ["]);
    assert_eq!(remove_entry(&lines, "git"), Err(EditError::MalformedBlock));
}

#[test]
fn single_line_insert_does_not_check_for_duplicates() {
    let lines = doc(&["with pkgs; [ git ]"]);
    let out = insert_entry(&lines, "git").unwrap();
    assert_eq!(out, doc(&["with pkgs; [ git git ]"]));
}

#[test]
fn join_lines_uses_newlines_without_trailing_one() {
    let lines = doc(&["a", "b", ""]);
    assert_eq!(join_lines(&lines), "a\nb\n");
    assert_eq!(join_lines(&doc(&["only"])), "only");
    assert_eq!(join_lines(&doc(&[])), "");
}
