use rsomics_fligner::layout::{check_input_files, parse_column, parse_long, read_verdict, ReadVerdict};
use rsomics_fligner::FlignerError;

fn lines(text: &str) -> Vec<Vec<char>> {
    text.lines().map(|l| l.chars().collect()).collect()
}

fn text(t: &[char]) -> String {
    t.iter().collect()
}

fn column_values(data: &str) -> Vec<f64> {
    parse_column(&lines(data), true)
        .unwrap()
        .iter()
        .map(|t| text(&t.text).parse::<f64>().unwrap())
        .collect()
}

fn long_groups(data: &str) -> Result<Vec<Vec<f64>>, FlignerError> {
    let layout = parse_long(&lines(data), true);
    if let Some(e) = layout.stop {
        return Err(e);
    }
    let mut groups = vec![Vec::new(); layout.labels.len()];
    for row in &layout.rows {
        groups[row.group].push(text(&row.value).parse::<f64>().unwrap());
    }
    Ok(groups)
}

#[test]
fn parses_single_column() {
    let g = column_values("1\n2\n3\n");
    assert_eq!(g, vec![1.0, 2.0, 3.0]);
}

#[test]
fn column_skips_blank_lines() {
    let g = column_values("1\n\n2\n");
    assert_eq!(g, vec![1.0, 2.0]);
}

#[test]
fn parses_long_layout() {
    let data = "1\ta\n2\tb\n3\ta\n4\tb\n";
    let g = long_groups(data).unwrap();
    assert_eq!(g, vec![vec![1.0, 3.0], vec![2.0, 4.0]]);
}

#[test]
fn long_rejects_single_group() {
    let data = "1\ta\n2\ta\n";
    assert!(long_groups(data).is_err());
}

#[test]
fn column_tokens_carry_line_numbers_and_trimmed_text() {
    let toks = parse_column(&lines("  1.5 \n\n\t-2\u{a0}\nx\n"), true).unwrap();
    let seen: Vec<(usize, String)> = toks.iter().map(|t| (t.line, text(&t.text))).collect();
    assert_eq!(
        seen,
        vec![(1, "1.5".to_string()), (3, "-2".to_string()), (4, "x".to_string())]
    );
}

#[test]
fn column_without_values_is_refused() {
    assert_eq!(
        parse_column(&lines("\n  \n\t\n"), true).err(),
        Some(FlignerError::NoData)
    );
    assert_eq!(parse_column(&[], true).err(), Some(FlignerError::NoData));
}

#[test]
fn column_cut_short_is_not_refused_for_missing_data() {
    assert!(parse_column(&lines("\n\n"), false).unwrap().is_empty());
}

#[test]
fn long_groups_keep_first_appearance_order() {
    let layout = parse_long(&lines("1 z\n2 a\n3 z\n4 m\n"), true);
    assert_eq!(layout.stop, None);
    let labels: Vec<String> = layout.labels.iter().map(|l| text(l)).collect();
    assert_eq!(labels, vec!["z", "a", "m"]);
    let groups: Vec<usize> = layout.rows.iter().map(|r| r.group).collect();
    assert_eq!(groups, vec![0, 1, 0, 2]);
    let lines_seen: Vec<usize> = layout.rows.iter().map(|r| r.line).collect();
    assert_eq!(lines_seen, vec![1, 2, 3, 4]);
}

#[test]
fn long_tab_fields_are_trimmed_and_may_hold_spaces() {
    let layout = parse_long(&lines(" 1 \t group one \r\n2\tgroup two\r\r\n"), true);
    assert_eq!(layout.stop, None);
    let labels: Vec<String> = layout.labels.iter().map(|l| text(l)).collect();
    assert_eq!(labels, vec!["group one", "group two"]);
    assert_eq!(text(&layout.rows[0].value), "1");
}

#[test]
fn long_malformed_line_stops_reading() {
    let layout = parse_long(&lines("1\ta\n\n2 b c\n3\tb\n"), true);
    assert_eq!(
        layout.stop,
        Some(FlignerError::ExpectedValueAndGroup { line: 3 })
    );
    assert_eq!(layout.rows.len(), 1);
    let layout = parse_long(&lines("1\ta\t\n"), true);
    assert_eq!(
        layout.stop,
        Some(FlignerError::ExpectedValueAndGroup { line: 1 })
    );
}

#[test]
fn long_empty_label_after_tab_is_a_group() {
    let layout = parse_long(&lines("1\t\n2\tb\n"), true);
    assert_eq!(layout.stop, None);
    assert_eq!(layout.labels.len(), 2);
    assert!(layout.labels[0].is_empty());
}

#[test]
fn long_group_count_is_judged_only_at_the_end() {
    assert_eq!(parse_long(&lines("1\ta\n"), false).stop, None);
    assert_eq!(
        parse_long(&lines("1\ta\n"), true).stop,
        Some(FlignerError::TooFewLongGroups)
    );
}

#[test]
fn input_file_counts() {
    assert_eq!(check_input_files(1, true), Ok(()));
    assert_eq!(
        check_input_files(2, true),
        Err(FlignerError::LongNeedsOneFile)
    );
    assert_eq!(
        check_input_files(1, false),
        Err(FlignerError::TooFewGroupFiles)
    );
    assert_eq!(check_input_files(3, false), Ok(()));
}

#[test]
fn long_mode_matches_cols_mode_grouping() {
    let a = "8.88\n9.12\n9.04\n";
    let b = "8.88\n8.95\n";
    let mut long = String::new();
    for v in a.lines() {
        long.push_str(&format!("{v}\ta\n"));
    }
    for v in b.lines() {
        long.push_str(&format!("{v}\tb\n"));
    }
    assert_eq!(
        long_groups(&long).unwrap(),
        vec![column_values(a), column_values(b)]
    );
}

#[test]
fn read_verdict_reports_in_line_order() {
    assert_eq!(
        read_verdict(Some(2), Some(FlignerError::NoData), true),
        ReadVerdict::NotANumber { row: 2 }
    );
    assert_eq!(
        read_verdict(None, Some(FlignerError::TooFewLongGroups), true),
        ReadVerdict::Refused(FlignerError::TooFewLongGroups)
    );
    assert_eq!(read_verdict(None, None, true), ReadVerdict::ReadFailed);
    assert_eq!(read_verdict(None, None, false), ReadVerdict::Accepted);
}

#[test]
fn long_with_blank_lines_and_padded_labels_matches_columns() {
    let long = "\n 8.88 \t  a \n\n8.88\t b\n9.12\t a\n   \n8.95\tb\n9.04\ta\n";
    assert_eq!(
        long_groups(long).unwrap(),
        vec![column_values("8.88\n9.12\n9.04\n"), column_values("8.88\n8.95\n")]
    );
}
