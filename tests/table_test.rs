use assistant::output_format::{decimal_string, signed_decimal_string, table_data_write, table_to_string, TableOutputFormat};
use assistant::table::InputExtract;

fn strings(v: &[&str]) -> Vec<String> {
    v.iter().map(|s| s.to_string()).collect()
}

fn students() -> (Vec<String>, Vec<Vec<String>>) {
    let names = strings(&["sid", "sname", "gap"]);
    let rows = vec![
        strings(&["3", "Alice", "5"]),
        strings(&["6", "Joe", "1"]),
        strings(&["10", "Boris", "5"]),
    ];
    (names, rows)
}

fn render(
    names: &Vec<String>,
    rows: &Vec<Vec<String>>,
    has_header: bool,
    cols: &Vec<bool>,
    keep: &Vec<bool>,
    f: TableOutputFormat,
) -> String {
    let mut out = String::new();
    table_data_write(names, rows, has_header, cols, keep, f, &mut out);
    out
}

#[test]
fn grid_basic() {
    let (names, rows) = students();
    let out = table_to_string(&names, &rows, TableOutputFormat::Table);
    let expected = [
        " sid | sname | gap \n",
        "-----+-------+-----\n",
        " 3   | Alice | 5   \n",
        " 6   | Joe   | 1   \n",
        " 10  | Boris | 5   \n",
    ].concat();
    assert_eq!(out, expected);
}

#[test]
fn grid_basic_widths() {
    let (names, rows) = students();
    let x = InputExtract::extract(&names, &rows, false, &vec![true; 3], &vec![true; 3]);
    assert_eq!(x.widths(), &vec![3, 5, 3]);
    assert_eq!(x.body().len(), 3);
}

#[test]
fn grid_cells_match_widths() {
    let (names, rows) = students();
    let out = table_to_string(&names, &rows, TableOutputFormat::Table);
    for line in out.lines() {
        if line.starts_with('-') {
            continue;
        }
        let parts: Vec<&str> = line.split('|').collect();
        assert_eq!(parts.len(), 3);
        assert_eq!(parts[0].chars().count(), 1 + 3 + 1);
        assert_eq!(parts[1].chars().count(), 1 + 5 + 1);
        assert_eq!(parts[2].chars().count(), 1 + 3 + 1);
    }
}

#[test]
fn grid_line_count_follows_row_filter() {
    let (names, rows) = students();
    let out = render(&names, &rows, false, &vec![true; 3], &vec![true, false, true], TableOutputFormat::Table);
    assert_eq!(out.lines().count(), 2 + 2);
    assert!(!out.contains("Joe"));
}

#[test]
fn records_basic() {
    let (names, rows) = students();
    let out = table_to_string(&names, &rows, TableOutputFormat::Records);
    let expected = [
        "-[ RECORD 1 ]\n",
        "sid   | 3\n",
        "sname | Alice\n",
        "gap   | 5\n",
        "-[ RECORD 2 ]\n",
        "sid   | 6\n",
        "sname | Joe\n",
        "gap   | 1\n",
        "-[ RECORD 3 ]\n",
        "sid   | 10\n",
        "sname | Boris\n",
        "gap   | 5\n",
    ].concat();
    assert_eq!(out, expected);
}

#[test]
fn records_numbering_after_row_filter() {
    let (names, rows) = students();
    let out = render(&names, &rows, false, &vec![true; 3], &vec![false, true, true], TableOutputFormat::Records);
    let markers: Vec<&str> = out.lines().filter(|l| l.starts_with("-[ RECORD")).collect();
    assert_eq!(markers, vec!["-[ RECORD 1 ]", "-[ RECORD 2 ]"]);
}

#[test]
fn records_two_digit_marker() {
    let names = strings(&["k"]);
    let rows: Vec<Vec<String>> = (0..10).map(|i| vec![i.to_string()]).collect();
    let out = table_to_string(&names, &rows, TableOutputFormat::Records);
    assert!(out.ends_with("-[ RECORD 10 ]\nk | 9\n"));
}

#[test]
fn empty_input_grid() {
    let names = strings(&["sid", "sname"]);
    let rows: Vec<Vec<String>> = vec![];
    assert_eq!(table_to_string(&names, &rows, TableOutputFormat::Table), "");
}

#[test]
fn empty_input_records() {
    let names = strings(&["sid", "sname"]);
    let rows: Vec<Vec<String>> = vec![];
    assert_eq!(table_to_string(&names, &rows, TableOutputFormat::Records), "");
}

#[test]
fn all_columns_filtered_out() {
    let (names, rows) = students();
    let out = render(&names, &rows, false, &vec![false; 3], &vec![true; 3], TableOutputFormat::Table);
    assert_eq!(out, "");
    let out = render(&names, &rows, false, &vec![false; 3], &vec![true; 3], TableOutputFormat::Records);
    assert_eq!(out, "");
}

#[test]
fn column_filter_drops_column() {
    let (names, rows) = students();
    let out = render(&names, &rows, false, &vec![true, false, true], &vec![true; 3], TableOutputFormat::Table);
    let expected = [
        " sid | gap \n",
        "-----+-----\n",
        " 3   | 5   \n",
        " 6   | 1   \n",
        " 10  | 5   \n",
    ].concat();
    assert_eq!(out, expected);
    let full = render(&names, &rows, false, &vec![true; 3], &vec![true; 3], TableOutputFormat::Table);
    assert!(out.len() <= full.len());
    let rec = render(&names, &rows, false, &vec![true, false, true], &vec![true; 3], TableOutputFormat::Records);
    let rec_full = render(&names, &rows, false, &vec![true; 3], &vec![true; 3], TableOutputFormat::Records);
    assert!(rec.len() <= rec_full.len());
}

#[test]
fn header_row_is_dropped() {
    let names = strings(&["a", "b"]);
    let rows = vec![strings(&["a", "b"]), strings(&["x", "yy"])];
    let out = render(&names, &rows, true, &vec![true; 2], &vec![true; 2], TableOutputFormat::Table);
    assert_eq!(out, " a | b  \n---+----\n x | yy \n");
}

#[test]
fn missing_cells_are_empty_and_extra_cells_dropped() {
    let names = strings(&["a", "b"]);
    let rows = vec![strings(&["x"]), strings(&["p", "q", "r"])];
    let out = table_to_string_loose(&names, &rows);
    assert_eq!(out, " a | b \n---+---\n x |   \n p | q \n");
}

fn table_to_string_loose(names: &Vec<String>, rows: &Vec<Vec<String>>) -> String {
    render(names, rows, false, &vec![true; names.len()], &vec![true; rows.len()], TableOutputFormat::Table)
}

#[test]
fn empty_column_keeps_header_width() {
    let names = strings(&["name"]);
    let rows = vec![strings(&[""]), strings(&[""])];
    let out = table_to_string(&names, &rows, TableOutputFormat::Table);
    assert_eq!(out, " name \n------\n      \n      \n");
}

#[test]
fn widths_count_characters() {
    let names = strings(&["k"]);
    let rows = vec![strings(&["äöü"])];
    let out = table_to_string(&names, &rows, TableOutputFormat::Table);
    assert_eq!(out, " k   \n-----\n äöü \n");
}

#[test]
fn default_format_is_grid() {
    assert_eq!(TableOutputFormat::default(), TableOutputFormat::Table);
}

#[test]
fn decimal_forms() {
    assert_eq!(decimal_string(0), "0");
    assert_eq!(decimal_string(7), "7");
    assert_eq!(decimal_string(1234), "1234");
    assert_eq!(decimal_string(u64::MAX), "18446744073709551615");
}

#[test]
fn signed_decimal_forms() {
    assert_eq!(signed_decimal_string(0), "0");
    assert_eq!(signed_decimal_string(-45), "-45");
    assert_eq!(signed_decimal_string(1700000000), "1700000000");
    assert_eq!(signed_decimal_string(i64::MIN), "-9223372036854775808");
}

#[test]
fn grid_all_rows_filtered_out_keeps_header_and_rule() {
    let names = strings(&["a"]);
    let rows = vec![strings(&["x"])];
    let out = render(&names, &rows, false, &vec![true], &vec![false], TableOutputFormat::Table);
    assert_eq!(out, " a \n---\n");
    let out = render(&names, &rows, false, &vec![true], &vec![false], TableOutputFormat::Records);
    assert_eq!(out, "");
}

#[test]
fn ragged_rows_through_table_to_string() {
    let names = strings(&["a", "b"]);
    let rows = vec![strings(&["x"]), strings(&["p", "q", "r"])];
    let out = table_to_string(&names, &rows, TableOutputFormat::Table);
    assert_eq!(out, " a | b \n---+---\n x |   \n p | q \n");
}
