use git_rustico::errors::ErrorType;
use git_rustico::merge::Merge;

#[test]
fn conflict_both_modified_same_line() -> Result<(), ErrorType> {
    let mut writer = String::new();
    let result = Merge::three_way_merge("line 1\nline 2\nline 3\n", "line 1\nline 4\nline 3\n", "line 1\nline 5\nline 3\n", &mut writer)?;
    assert!(result);
    assert_eq!(writer, "line 1\n<<<<<<< HEAD\nline 4\n=======\nline 5\n>>>>>>> Merge Branch\nline 3");
    Ok(())
}

#[test]
fn no_conflict_nothing_changed() -> Result<(), ErrorType> {
    let mut writer = String::new();
    let result = Merge::three_way_merge("line 1\nline 2\nline 3", "line 1\nline 2\nline 3", "line 1\nline 2\nline 3", &mut writer)?;
    assert!(!result);
    assert_eq!(writer, "line 1\nline 2\nline 3");
    Ok(())
}

#[test]
fn no_conflict_both_added_same_line() -> Result<(), ErrorType> {
    let mut writer = String::new();
    let result = Merge::three_way_merge("line 1\nline 2\nline 3\n", "line 1\nline 2\nline 3\nline 4\n", "line 1\nline 2\nline 3\nline 4\n", &mut writer)?;
    assert!(!result);
    assert_eq!(writer, "line 1\nline 2\nline 3\nline 4");
    Ok(())
}

#[test]
fn no_conflict_both_deleted_same_line() -> Result<(), ErrorType> {
    let mut writer = String::new();
    let result = Merge::three_way_merge("line 1\nline 2\nline 3\n", "line 1\nline 3\n", "line 1\nline 3\n", &mut writer)?;
    assert!(!result);
    assert_eq!(writer, "line 1\nline 3");
    Ok(())
}

#[test]
fn conflict_both_added_lines_at_beginning_and_end() -> Result<(), ErrorType> {
    let mut writer = String::new();
    let result = Merge::three_way_merge(
        "line 1\nline 2\nline 3\n",
        "line 0\nline 1\nline 2\nline 3\nline 4\n",
        "line 5\nline 1\nline 2\nline 2.5\nline 3\nline 6\n",
        &mut writer,
    )?;
    assert!(result);
    assert_eq!(
        writer,
        "<<<<<<< HEAD\nline 0\n=======\nline 5\n>>>>>>> Merge Branch\nline 1\nline 2\nline 2.5\nline 3\n<<<<<<< HEAD\nline 4\n=======\nline 6\n>>>>>>> Merge Branch"
    );
    Ok(())
}

#[test]
fn conflict_multi_line_changes() -> Result<(), ErrorType> {
    let mut writer = String::new();
    let result = Merge::three_way_merge(
        "line 1\nline 2\nline 3\n",
        "line 1\nline a\nline b\nline c\nline 3\n",
        "line 1\nline d\nline e\nline f\nline 3\n",
        &mut writer,
    )?;
    assert!(result);
    assert_eq!(writer, "line 1\n<<<<<<< HEAD\nline a\nline b\nline c\n=======\nline d\nline e\nline f\n>>>>>>> Merge Branch\nline 3");
    Ok(())
}

#[test]
fn no_conflict_one_line() -> Result<(), ErrorType> {
    let mut writer = String::new();
    let result = Merge::three_way_merge("line 1", "line 0\nline 1", "line 1\nline 2", &mut writer)?;
    assert!(!result);
    assert_eq!(writer, "line 0\nline 1\nline 2");
    Ok(())
}

#[test]
fn merge_texts_matches_three_way_merge() {
    let (text, conflict) = Merge::merge_texts("line 1\nline 2\nline 3\n", "line 1\nline 4\nline 3\n", "line 1\nline 5\nline 3\n").unwrap();
    assert!(conflict);
    assert_eq!(text, "line 1\n<<<<<<< HEAD\nline 4\n=======\nline 5\n>>>>>>> Merge Branch\nline 3");
}

#[test]
fn merge_with_unchanged_head_takes_the_branch() {
    let mut writer = String::new();
    let conflict = Merge::three_way_merge("a\nb\nc", "a\nb\nc", "a\nx\nc\nd", &mut writer).unwrap();
    assert!(!conflict);
    assert_eq!(writer, "a\nx\nc\nd");
}

#[test]
fn merge_where_one_side_removes_after_the_other_ends_marks_the_conflict() {
    let mut writer = String::new();
    let conflict = Merge::three_way_merge("a\nb", "b", "x\na", &mut writer).unwrap();
    assert!(conflict);
    assert!(writer.starts_with("<<<<<<< HEAD"));
    assert!(writer.contains("=======\nx\n>>>>>>> Merge Branch"));
    assert!(writer.ends_with("\nb"));
}
