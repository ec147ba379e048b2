use oxidyze::table::{display_width, render};

fn row(cells: &[&str]) -> Vec<String> {
    cells.iter().map(|c| (*c).to_string()).collect()
}

#[test]
fn columns_size_to_widest_cell() {
    let out = render(
        &["IP", "HOSTNAME"],
        &[row(&["192.168.1.1", "router.lan"]), row(&["10.0.0.1", "-"])],
    );
    let lines: Vec<&str> = out.lines().collect();
    assert_eq!(lines[0], "IP           HOSTNAME");
    // The rule spans the widest cell in each column, so the second
    // column is sized to "router.lan" (10) rather than "HOSTNAME" (8).
    assert_eq!(lines[1], "-----------  ----------");
    assert_eq!(lines[2], "192.168.1.1  router.lan");
    assert_eq!(lines[3], "10.0.0.1     -");
}

#[test]
fn row_wider_than_headers_does_not_panic() {
    let out = render(&["ONE", "TWO"], &[row(&["a", "b", "c"])]);
    assert!(out.contains('c'), "extra cell should still be rendered");
}

#[test]
fn row_narrower_than_headers_is_padded() {
    let out = render(&["ONE", "TWO", "THREE"], &[row(&["a"])]);
    let lines: Vec<&str> = out.lines().collect();
    assert_eq!(lines[2], "a");
}

#[test]
fn handles_no_rows() {
    let out = render(&["IP", "PORTS"], &[]);
    assert_eq!(out.lines().count(), 2);
}

#[test]
fn non_ascii_cells_align_by_character_count() {
    let out = render(&["NAME"], &[row(&["café"]), row(&["ab"])]);
    let lines: Vec<&str> = out.lines().collect();
    assert_eq!(lines[1], "----");
}

#[test]
fn cells_of_a_column_begin_at_one_position() {
    let out = render(
        &["A", "B", "C"],
        &[row(&["é", "", "x"]), row(&["long", "bb", "y"]), row(&["", "q"])],
    );
    assert_eq!(
        out,
        "A     B   C\n----  --  -\né         x\nlong  bb  y\n      q"
    );
}

#[test]
fn extra_cells_get_columns_of_their_own() {
    assert_eq!(
        render(&["H"], &[row(&["a", "bcd"])]),
        "H\n-  ---\na  bcd"
    );
    assert_eq!(render(&[], &[]), "\n");
}

#[test]
fn width_counts_characters() {
    assert_eq!(display_width("café"), 4);
    assert_eq!(display_width(""), 0);
}

#[test]
fn the_order_of_rows_changes_the_order_of_lines_only() {
    let (a, b) = (row(&["x", "long cell"]), row(&["wide", ""]));
    let one = render(&["H", "I"], &[a.clone(), b.clone()]);
    let two = render(&["H", "I"], &[b, a]);
    let one: Vec<&str> = one.split('\n').collect();
    let two: Vec<&str> = two.split('\n').collect();
    assert_eq!(one, vec!["H     I", "----  ---------", "x     long cell", "wide"]);
    assert_eq!(two, vec![one[0], one[1], one[3], one[2]]);
}
