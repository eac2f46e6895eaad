use statistics_by_rust::{bar_chart, StatsError};

#[test]
fn test_bar_chart() {
    assert_eq!(
        Ok("a   |   1 | #\nbb  |   3 | ###\ncde |  12 | ############".to_string()),
        bar_chart(&[1, 3, 12], &["a", "bb", "cde"])
    );
    assert_eq!(
        Ok("a     |   1 | #\nbbbbb |   3 | ###\ncde   | 100 | ####################################################################################################".to_string()),
        bar_chart(&[1, 3, 100], &["a", "bbbbb", "cde"])
    );
}

#[test]
fn bar_chart_months() {
    let expected = vec!["January  |  1 | #", "February |  2 | ##", "March    |  3 | ###"].join("\n");
    assert_eq!(Ok(expected), bar_chart(&[1, 2, 3], &["January", "February", "March"]));
}

#[test]
fn bar_chart_length_mismatch() {
    assert_eq!(Err(StatsError::LengthMismatch), bar_chart(&[1, 2], &["a"]));
    assert_eq!(Err(StatsError::LengthMismatch), bar_chart(&[], &["a"]));
}

#[test]
fn bar_chart_empty_input() {
    assert_eq!(Err(StatsError::EmptyInput), bar_chart(&[], &[]));
}

#[test]
fn bar_chart_zero_values() {
    assert_eq!(Ok("x | 0 | \ny | 0 | ".to_string()), bar_chart(&[0, 0], &["x", "y"]));
}

#[test]
fn bar_chart_value_widths() {
    // 9 is no power of ten: one spare column
    assert_eq!(Ok("a |  9 | #########".to_string()), bar_chart(&[9], &["a"]));
    // 10 and 1 are powers of ten: no spare column
    assert_eq!(Ok("a | 10 | ##########\nb |  2 | ##".to_string()), bar_chart(&[10, 2], &["a", "b"]));
    assert_eq!(Ok("a | 1 | #".to_string()), bar_chart(&[1], &["a"]));
    // 11 needs three columns
    assert_eq!(Ok("a |  11 | ###########".to_string()), bar_chart(&[11], &["a"]));
}

#[test]
fn bar_chart_empty_label() {
    assert_eq!(Ok("    |  5 | #####\nabc |  2 | ##".to_string()), bar_chart(&[5, 2], &["", "abc"]));
}

#[test]
fn bar_chart_marks_count_values() {
    let values = [4usize, 0, 7, 1, 30];
    let labels = ["one", "two", "three", "four", "five"];
    let text = bar_chart(&values, &labels).unwrap();
    let lines: Vec<&str> = text.split('\n').collect();
    assert_eq!(values.len(), lines.len());
    let marks: Vec<usize> = lines.iter().map(|l| l.chars().filter(|c| *c == '#').count()).collect();
    assert_eq!(values.to_vec(), marks);
    assert!(!text.ends_with('\n'));
}
