use r_approx::frame::DataFrame;
use r_approx::report::{chart_heading, model_file_name, sibling_path};
use r_approx::row::DataRow;

fn row(temp: i32, x: i32, y: i32) -> DataRow {
    DataRow {
        temp: Some(temp),
        x: Some(x),
        y: Some(y),
    }
}

#[test]
fn markdown_table_has_a_column_for_each_row() {
    let frame = DataFrame {
        rows: vec![row(-50, 2, -4), row(-44, 2, -3)],
    };
    assert_eq!(
        frame.to_markdown(),
        "|      |   0 |   1 |\r\n|:-----|----:|----:|\r\n| temp | -50 | -44 |\r\n| dx   |   2 |   2 |\r\n| dy   |  -4 |  -3 |\r\n"
    );
}

#[test]
fn markdown_table_widens_for_long_values() {
    let mut rows = Vec::new();
    for k in 0..11 {
        rows.push(row(k * 100, -1000, 5));
    }
    let text = DataFrame { rows }.to_markdown();
    let lines: Vec<&str> = text.split("\r\n").collect();
    assert_eq!(lines.len(), 6);
    assert_eq!(lines[5], "");
    assert!(lines[0].ends_with("   9 |  10 |"));
    assert!(lines[2].starts_with("| temp |   0 | 100 |"));
    assert!(lines[2].ends_with(" 900 | 1000 |"));
    assert!(lines[3].starts_with("| dx   | -1000 | -1000 |"));
    assert!(lines[4].starts_with("| dy   |   5 |   5 |"));
}

#[test]
fn markdown_table_of_no_rows_has_only_the_row_heads() {
    let frame = DataFrame { rows: vec![] };
    assert_eq!(
        frame.to_markdown(),
        "|      |\r\n|:-----|\r\n| temp |\r\n| dx   |\r\n| dy   |\r\n"
    );
}

#[test]
fn sibling_path_replaces_what_follows_the_last_dot() {
    assert_eq!(
        sibling_path("/home/user/data/test.csv", "_auto_model.txt"),
        "/home/user/data/test_auto_model.txt"
    );
    assert_eq!(sibling_path("test.csv", "_model.md"), "test_model.md");
}

#[test]
fn sibling_path_drops_every_dot() {
    assert_eq!(sibling_path("/a.b/c.d.txt", "_with_model.png"), "/ab/cd_with_model.png");
    assert_eq!(sibling_path("./data.csv", "_x"), "/data_x");
}

#[test]
fn sibling_path_of_a_path_without_dot_is_the_suffix() {
    assert_eq!(sibling_path("data", "_auto_model.txt"), "_auto_model.txt");
    assert_eq!(sibling_path("", "_auto_model.txt"), "_auto_model.txt");
}

#[test]
fn model_file_is_named_by_serial_number_and_time() {
    assert_eq!(
        model_file_name("3БЛ12А", 2024, 3, 7, 9, 5),
        "tpk-k_3БЛ12А_2024-3-7_9-5.ct"
    );
    assert_eq!(
        model_file_name("", 1999, 12, 31, 23, 59),
        "tpk-k__1999-12-31_23-59.ct"
    );
    assert_eq!(
        model_file_name("s", -5, 1, 1, 0, 0),
        "tpk-k_s_-5-1-1_0-0.ct"
    );
}

#[test]
fn chart_heading_names_serial_number_and_day() {
    assert_eq!(chart_heading("БЛ7", 7, 3, 2024), "БЛ7 (7.3.2024)");
    assert_eq!(chart_heading("", 31, 12, 1999), " (31.12.1999)");
}
