use git_rustico::diff::{Diff, ModificationType};

#[test]
fn test_longest_common_line_subsequence() {
    let lines1 = vec!["line 1", "line 2", "line 3"];
    let lines2 = vec!["line 1", "line 4", "line 3"];
    assert_eq!(Diff::longest_common_line_subsequence(&lines1, &lines2), vec!["line 1", "line 3"]);

    let lines1 = vec!["line 1", "line 2", "line 3"];
    let lines2 = vec!["line 4", "line 5", "line 6"];
    assert_eq!(Diff::longest_common_line_subsequence(&lines1, &lines2), Vec::<String>::new());

    let lines1: Vec<&str> = Vec::new();
    let lines2: Vec<&str> = Vec::new();
    assert_eq!(Diff::longest_common_line_subsequence(&lines1, &lines2), Vec::<String>::new());

    let lines1 = vec!["line 1"];
    let lines2 = vec!["line 1"];
    assert_eq!(Diff::longest_common_line_subsequence(&lines1, &lines2), vec!["line 1"]);
}

#[test]
fn test_diff_common_subsequence() {
    let original = "line 1\nline 2\nline 3";
    let modified = "line 1\nline 4\nline 3";
    let result = Diff::diff(original, modified);
    assert_eq!(
        result,
        vec![
            ModificationType::Same("line 1".to_string()),
            ModificationType::Remove("line 2".to_string()),
            ModificationType::Add("line 4".to_string()),
            ModificationType::Same("line 3".to_string())
        ]
    );
}

#[test]
fn test_diff_no_common_subsequence() {
    let original = "line 1\nline 2\nline 3";
    let modified = "line 4\nline 5\nline 6";
    let result = Diff::diff(original, modified);
    assert_eq!(
        result,
        vec![
            ModificationType::Remove("line 1".to_string()),
            ModificationType::Remove("line 2".to_string()),
            ModificationType::Remove("line 3".to_string()),
            ModificationType::Add("line 4".to_string()),
            ModificationType::Add("line 5".to_string()),
            ModificationType::Add("line 6".to_string()),
        ]
    );
}

#[test]
fn test_diff_empty_input() {
    let result = Diff::diff("", "");
    assert_eq!(result, Vec::<ModificationType>::new());
}

#[test]
fn test_diff_single_same_line_common_subsequence() {
    let result = Diff::diff("line 1", "line 1");
    assert_eq!(result, vec![ModificationType::Same("line 1".to_string())]);
}

#[test]
fn test_diff_one_line_common_subsequence() {
    let original = "line 1";
    let modified = "line0\nline 1";
    let result = Diff::diff(original, modified);
    assert_eq!(
        result,
        vec![ModificationType::Add("line0".to_string()), ModificationType::Same("line 1".to_string())]
    );

    let modified = "line 1\nline 2";
    let result = Diff::diff(original, modified);
    assert_eq!(
        result,
        vec![ModificationType::Same("line 1".to_string()), ModificationType::Add("line 2".to_string())]
    );
}

#[test]
fn diff_kept_and_added_lines_rebuild_the_modified_text() {
    let original = "a\nb\nc\nd";
    let modified = "a\nx\nc\ny\nd\nz";
    let rebuilt: Vec<String> = Diff::diff(original, modified)
        .into_iter()
        .filter_map(|m| match m {
            ModificationType::Same(l) | ModificationType::Add(l) => Some(l),
            ModificationType::Remove(_) => None,
        })
        .collect();
    assert_eq!(rebuilt.join("\n"), modified);
}
