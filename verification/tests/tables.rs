use typstpp::table::{slash_aware_split, transform_tables, Align, MarkdownTable};

#[test]
fn table_transform_example() {
    let input = "| a | b |\n|---|---|\n| 1 | 2 |\n";
    let out = transform_tables(input);
    assert_eq!(
        out,
        "#table(\ncolumns: (auto, auto),\nalign: (left, left),\n[a],[b],\n[1],[2],\n)\n"
    );
}

#[test]
fn parse_example_table() {
    let t = MarkdownTable::parse("| a | b |\n|---|---|\n| 1 | 2 |");
    assert_eq!(t.headers, vec!["a".to_string(), "b".to_string()]);
    assert_eq!(t.aligns, vec![Align::Left, Align::Left]);
    assert_eq!(t.rows, vec![vec!["1".to_string(), "2".to_string()]]);
}

#[test]
fn escape_aware_split_example() {
    // an escaped delimiter stays inside one cell, and the backslash is gone
    assert_eq!(slash_aware_split("a\\|b", '|'), vec!["a|b".to_string()]);
    assert_eq!(
        slash_aware_split("x|y", '|'),
        vec!["x".to_string(), "y".to_string()]
    );
    assert_eq!(
        slash_aware_split("|z|", '|'),
        vec!["".to_string(), "z".to_string(), "".to_string()]
    );
}

#[test]
fn escaped_cell_in_row() {
    let t = MarkdownTable::parse("| h |\n|---|\n| a\\|b |");
    assert_eq!(t.rows, vec![vec!["a|b".to_string()]]);
}

#[test]
fn alignment_markers() {
    let t = MarkdownTable::parse("| x | y | z | w |\n|:---:|:---|---:|---|");
    assert_eq!(
        t.aligns,
        vec![Align::Center, Align::Left, Align::Right, Align::Left]
    );
}

#[test]
fn zero_row_table_still_emitted() {
    let out = transform_tables("| a |\n|---|\nend\n");
    assert_eq!(
        out,
        "#table(\ncolumns: (auto),\nalign: (left),\n[a],\n\n)\nend\n"
    );
}

#[test]
fn raw_fence_protects_pipes() {
    // a pipe-prefixed line inside an open raw fence is never read as a table
    let input = "```\n| a | b |\n|---|---|\n```\n";
    assert_eq!(transform_tables(input), input);
}

#[test]
fn fence_closes_raw_region() {
    // after the closing fence, pipe lines are tables again
    let input = "```\n| raw |\n```\n| a |\n|---|\n";
    let out = transform_tables(input);
    assert_eq!(
        out,
        "```\n| raw |\n```\n#table(\ncolumns: (auto),\nalign: (left),\n[a],\n\n)\n"
    );
}

#[test]
fn transform_idempotent_on_plain_text() {
    let x = "hello\nworld, no tables here\n\n```\nfenced\n```\n";
    let once = transform_tables(x);
    let twice = transform_tables(&once);
    assert_eq!(twice, once);
}

#[test]
fn transform_passes_plain_text_through() {
    assert_eq!(transform_tables("a\nb"), "a\nb\n");
}

#[test]
fn to_typst_table_shape() {
    let t = MarkdownTable {
        headers: vec!["h1".to_string(), "h2".to_string()],
        aligns: vec![Align::Right, Align::Center],
        rows: vec![
            vec!["a".to_string(), "b".to_string()],
            vec!["c".to_string(), "d".to_string()],
        ],
    };
    assert_eq!(
        t.to_typst_table(),
        "#table(\ncolumns: (auto, auto),\nalign: (right, center),\n[h1],[h2],\n[a],[b],[c],[d],\n)"
    );
}

#[test]
fn single_pipe_line_passes_through() {
    // a one-line pipe block has no alignment row to parse: it is passed
    // through as provided
    assert_eq!(transform_tables("| lonely\nrest\n"), "| lonely\nrest\n");
    assert_eq!(transform_tables("| lonely"), "| lonely\n");
}

#[test]
fn empty_input_stays_empty() {
    assert_eq!(transform_tables(""), "");
}
