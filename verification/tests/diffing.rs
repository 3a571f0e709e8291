use xdiff::diff::{compute_diff, diff_text, split_lines, DiffOp, diff_lines, group_ops};

fn chars(s: &str) -> Vec<char> {
    s.chars().collect()
}

fn text(v: &Vec<char>) -> String {
    v.iter().collect()
}

fn seg_text(segs: &Vec<xdiff::diff::Segment>) -> String {
    segs.iter().map(|s| s.text.iter().collect::<String>()).collect()
}

#[test]
fn identical_texts_diff_to_nothing() {
    let out = diff_text("a\nb\nc\n", "a\nb\nc\n").unwrap();
    assert_eq!(out, "");
    let structured = compute_diff(&chars("same"), &chars("same"));
    assert!(structured.hunks.is_empty());
}

#[test]
fn single_change_makes_one_hunk() {
    let structured = compute_diff(&chars("a\nb\nc\n"), &chars("a\nx\nc\n"));
    assert_eq!(structured.hunks.len(), 1);
    let lines = &structured.hunks[0].lines;
    assert_eq!(lines.len(), 4);

    assert_eq!(lines[0].sign, ' ');
    assert_eq!(lines[0].old_index, Some(0));
    assert_eq!(lines[0].new_index, Some(0));
    assert_eq!(seg_text(&lines[0].segments), "a\n");

    assert_eq!(lines[1].sign, '-');
    assert_eq!(lines[1].old_index, Some(1));
    assert_eq!(lines[1].new_index, None);
    assert_eq!(seg_text(&lines[1].segments), "b\n");

    assert_eq!(lines[2].sign, '+');
    assert_eq!(lines[2].old_index, None);
    assert_eq!(lines[2].new_index, Some(1));
    assert_eq!(seg_text(&lines[2].segments), "x\n");

    assert_eq!(lines[3].sign, ' ');
    assert_eq!(lines[3].old_index, Some(2));
    assert_eq!(lines[3].new_index, Some(2));
    assert_eq!(seg_text(&lines[3].segments), "c\n");
}

#[test]
fn far_changes_make_two_hunks() {
    let old = "c\n0\n1\n2\n3\n4\n5\n6\n7\n8\n9\nd\n";
    let new = "x\n0\n1\n2\n3\n4\n5\n6\n7\n8\n9\ny\n";
    let structured = compute_diff(&chars(old), &chars(new));
    assert_eq!(structured.hunks.len(), 2);
    let rendered = diff_text(old, new).unwrap();
    assert!(rendered.contains("--------"));
}

#[test]
fn near_changes_share_one_hunk() {
    let old = "c\n0\n1\n2\nd\n";
    let new = "x\n0\n1\n2\ny\n";
    let structured = compute_diff(&chars(old), &chars(new));
    assert_eq!(structured.hunks.len(), 1);
}

#[test]
fn context_is_trimmed_to_three_lines() {
    let old = "0\n1\n2\n3\n4\nmid\n5\n6\n7\n8\n9\n";
    let new = "0\n1\n2\n3\n4\nMID\n5\n6\n7\n8\n9\n";
    let structured = compute_diff(&chars(old), &chars(new));
    assert_eq!(structured.hunks.len(), 1);
    // three context lines each side of the single change pair
    assert_eq!(structured.hunks[0].lines.len(), 3 + 2 + 3);
    assert_eq!(seg_text(&structured.hunks[0].lines[0].segments), "2\n");
}

#[test]
fn similar_lines_carry_emphasis() {
    let structured = compute_diff(
        &chars("hello cruel world\n"),
        &chars("hello kind world\n"),
    );
    assert_eq!(structured.hunks.len(), 1);
    let del = &structured.hunks[0].lines[0];
    assert_eq!(del.sign, '-');
    assert_eq!(seg_text(&del.segments), "hello cruel world\n");
    assert!(del.segments.iter().any(|s| s.emphasized));
    let ins = &structured.hunks[0].lines[1];
    assert_eq!(ins.sign, '+');
    assert_eq!(seg_text(&ins.segments), "hello kind world\n");
    assert!(ins.segments.iter().any(|s| s.emphasized));
}

#[test]
fn equal_lines_carry_no_emphasis() {
    let structured = compute_diff(&chars("same\nold\n"), &chars("same\nnew\n"));
    for hunk in &structured.hunks {
        for line in &hunk.lines {
            if line.sign == ' ' {
                assert!(line.segments.iter().all(|s| !s.emphasized));
            }
        }
    }
}

#[test]
fn rendered_lines_carry_numbers_and_signs() {
    let out = diff_text("a\nb\nc\n", "a\nx\nc\n").unwrap();
    let lines: Vec<&str> = out.lines().collect();
    assert_eq!(lines.len(), 4);
    assert_eq!(lines[0], "1   1    | a");
    assert_eq!(lines[1], "2        |-b");
    assert_eq!(lines[2], "    2    |+x");
    assert_eq!(lines[3], "3   3    | c");
}

#[test]
fn split_lines_keeps_newlines() {
    let lines = split_lines(&chars("a\nb"));
    assert_eq!(lines.len(), 2);
    assert_eq!(text(&lines[0]), "a\n");
    assert_eq!(text(&lines[1]), "b");
    let lines = split_lines(&chars("a\n"));
    assert_eq!(lines.len(), 1);
    assert_eq!(text(&lines[0]), "a\n");
    assert!(split_lines(&chars("")).is_empty());
}

#[test]
fn script_is_minimal_on_small_case() {
    let a = split_lines(&chars("a\nb\nc\n"));
    let b = split_lines(&chars("a\nx\nc\n"));
    let ops = diff_lines(&a, &b);
    // two equal lines kept, one delete, one insert
    assert_eq!(ops.len(), 4);
    let equals = ops
        .iter()
        .filter(|o| matches!(o, DiffOp::Equal(_, _)))
        .count();
    assert_eq!(equals, 2);
}

#[test]
fn grouping_of_all_equal_script_is_empty() {
    let a = split_lines(&chars("a\nb\n"));
    let ops = diff_lines(&a, &a);
    assert!(group_ops(&ops).is_empty());
}

#[test]
fn missing_trailing_newline_is_rendered() {
    let out = diff_text("a", "b").unwrap();
    let lines: Vec<&str> = out.lines().collect();
    assert_eq!(lines, vec!["1        |-a", "    1    |+b"]);
}
