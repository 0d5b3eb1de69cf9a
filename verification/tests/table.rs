use aus_vs_hound::table::{group_rows, render_table};

fn s(x: &str) -> String {
    x.to_string()
}

#[test]
fn render_table_three_results_with_separator() {
    let rows: Vec<Vec<String>> = vec![
        vec![s("hound · i16 · 1ch"), s("1.000"), s("0.100"), s("1.000"), s("1.100"), s("1.200"), s("0.100")],
        vec![s("aus · i16 · 1ch ⚠"), s("2.500"), s("1.500"), s("2.000"), s("4.000"), s("5.000"), s("0.600")],
        vec![s("mmap · i16 · 1ch"), s("0.010"), s("0.001"), s("0.010"), s("0.011"), s("0.012"), s("0.100")],
    ];
    let expected = [
        "┌─────────────────────────────────────────────────────────────────────────────────────┐\n",
        "│                                     Read — 1s                                     │\n",
        "├───────────────────────┬──────────┬─────────┬──────────┬──────────┬──────────┬───────┤\n",
        "│       Benchmark       │ avg (ms) │ σ (ms)  │ p50 (ms) │ p90 (ms) │ p99 (ms) │  CV   │\n",
        "├───────────────────────┼──────────┼─────────┼──────────┼──────────┼──────────┼───────┤\n",
        "│ hound · i16 · 1ch     │    1.000 │   0.100 │    1.000 │    1.100 │    1.200 │ 0.100 │\n",
        "│ aus · i16 · 1ch ⚠     │    2.500 │   1.500 │    2.000 │    4.000 │    5.000 │ 0.600 │\n",
        "├───────────────────────┼──────────┼─────────┼──────────┼──────────┼──────────┼───────┤\n",
        "│ mmap · i16 · 1ch      │    0.010 │   0.001 │    0.010 │    0.011 │    0.012 │ 0.100 │\n",
        "└───────────────────────┴──────────┴─────────┴──────────┴──────────┴──────────┴───────┘\n",
    ]
    .concat();
    assert_eq!(render_table("Read — 1s", &rows, &[1]), expected);
}

#[test]
fn render_table_short_rows_and_trailing_separator() {
    let rows: Vec<Vec<String>> = vec![
        vec![s("a")],
        vec![s("bb"), s("1")],
    ];
    let expected = [
        "┌──────────────────────────────────────────────────────────────────────┐\n",
        "│                                  T                                   │\n",
        "├───────────┬──────────┬─────────┬──────────┬──────────┬──────────┬────┤\n",
        "│ Benchmark │ avg (ms) │ σ (ms)  │ p50 (ms) │ p90 (ms) │ p99 (ms) │ CV │\n",
        "├───────────┼──────────┼─────────┼──────────┼──────────┼──────────┼────┤\n",
        "│ a         │\n",
        "├───────────┼──────────┼─────────┼──────────┼──────────┼──────────┼────┤\n",
        "│ bb        │        1 │\n",
        "└───────────┴──────────┴─────────┴──────────┴──────────┴──────────┴────┘\n",
    ]
    .concat();
    assert_eq!(render_table("T", &rows, &[0, 1]), expected);
}

#[test]
fn render_table_without_rows() {
    let rows: Vec<Vec<String>> = Vec::new();
    let expected = [
        "┌──────────────────────────────────────────────────────────────────────┐\n",
        "│                                Empty                                 │\n",
        "├───────────┬──────────┬─────────┬──────────┬──────────┬──────────┬────┤\n",
        "│ Benchmark │ avg (ms) │ σ (ms)  │ p50 (ms) │ p90 (ms) │ p99 (ms) │ CV │\n",
        "├───────────┼──────────┼─────────┼──────────┼──────────┼──────────┼────┤\n",
        "└───────────┴──────────┴─────────┴──────────┴──────────┴──────────┴────┘\n",
    ]
    .concat();
    assert_eq!(render_table("Empty", &rows, &[]), expected);
}

#[test]
fn render_table_lines_share_width_except_title() {
    let rows: Vec<Vec<String>> = vec![
        vec![s("hound · i16 · 1ch"), s("1.000"), s("0.100"), s("1.000"), s("1.100"), s("1.200"), s("0.100")],
        vec![s("aus · i16 · 1ch ⚠"), s("2.500"), s("1.500"), s("2.000"), s("4.000"), s("5.000"), s("0.600")],
        vec![s("mmap · i16 · 1ch"), s("0.010"), s("0.001"), s("0.010"), s("0.011"), s("0.012"), s("0.100")],
    ];
    let out = render_table("Read — 1s", &rows, &[1]);
    let widths: Vec<usize> = out.lines().map(|l| l.chars().count()).collect();
    assert_eq!(widths.len(), 10);
    for (i, w) in widths.iter().enumerate() {
        if i == 1 {
            // "—" takes three bytes, so the title line is two characters short.
            assert_eq!(*w, widths[0] - 2);
        } else {
            assert_eq!(*w, widths[0]);
        }
    }
}

#[test]
fn group_rows_marks_ends_of_groups_but_the_last() {
    let groups: Vec<Vec<u32>> = vec![vec![1, 2], vec![], vec![3], vec![4, 5, 6], vec![]];
    let (rows, seps) = group_rows(groups);
    assert_eq!(rows, vec![1, 2, 3, 4, 5, 6]);
    assert_eq!(seps, vec![1, 2]);
}

#[test]
fn group_rows_of_nothing() {
    let groups: Vec<Vec<u32>> = vec![vec![], vec![]];
    let (rows, seps) = group_rows(groups);
    assert!(rows.is_empty());
    assert!(seps.is_empty());
}

#[test]
fn group_rows_single_group_has_no_separator() {
    let (rows, seps) = group_rows(vec![vec!["x", "y"]]);
    assert_eq!(rows, vec!["x", "y"]);
    assert!(seps.is_empty());
}
