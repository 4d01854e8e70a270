use r_approx::frame::DataFrame;
use r_approx::model::{grid, GRID_FIRST, GRID_POINTS, GRID_STEP};
use r_approx::row::DataRow;

fn row(temp: i32, x: i32, y: i32) -> DataRow {
    DataRow {
        temp: Some(temp),
        x: Some(x),
        y: Some(y),
    }
}

#[test]
fn grid_runs_from_minus_50_to_70_in_steps_of_6() {
    assert_eq!(
        grid(),
        vec![
            -50, -44, -38, -32, -26, -20, -14, -8, -2, 4, 10, 16, 22, 28, 34, 40, 46, 52, 58, 64,
            70
        ]
    );
    assert_eq!(GRID_FIRST, -50);
    assert_eq!(GRID_STEP, 6);
    assert_eq!(GRID_POINTS, 21);
}

#[test]
fn model_has_one_row_for_each_point_of_the_grid() {
    let mut xs = [0i32; 21];
    let mut ys = [0i32; 21];
    for k in 0..21 {
        xs[k] = k as i32 * 3 - 7;
        ys[k] = 100 - k as i32;
    }
    let model = DataFrame::calc(&xs, &ys);
    assert_eq!(model.rows.len(), 21);
    for k in 0..21 {
        assert_eq!(
            model.rows[k],
            row(-50 + 6 * k as i32, k as i32 * 3 - 7, 100 - k as i32)
        );
    }
    for pair in model.rows.windows(2) {
        assert!(pair[0].temp.unwrap() < pair[1].temp.unwrap());
    }
    assert_eq!(model.rows[0].temp, Some(-50));
    assert_eq!(model.rows[20].temp, Some(70));
}

#[test]
fn model_reads_back_from_its_text() {
    let xs = [2, 2, 0, 0, 0, 0, 0, 0, 0, 0, 0, 0, 0, 0, -1, -1, -1, -2, -2, -2, -3];
    let ys = [-4, -3, -2, -1, -1, -1, -1, 0, 0, 0, 0, 0, 0, 0, 0, 0, 0, 0, 0, 0, 0];
    let model = DataFrame::calc(&xs, &ys);
    let again = DataFrame::from_str(&model.to_string()).unwrap();
    assert_eq!(again.rows, model.rows);
}

#[test]
fn samples_pair_the_temperature_with_each_offset() {
    let frame = DataFrame {
        rows: vec![row(-3, 1, 2), row(0, 0, 0), row(5, -4, 9)],
    };
    assert!(frame.is_complete());
    assert_eq!(frame.x_samples(), vec![(-3, 1), (0, 0), (5, -4)]);
    assert_eq!(frame.y_samples(), vec![(-3, 2), (0, 0), (5, 9)]);
}

#[test]
fn table_with_a_missing_field_is_not_complete() {
    let frame = DataFrame {
        rows: vec![
            row(-3, 1, 2),
            DataRow {
                temp: Some(1),
                x: None,
                y: Some(1),
            },
        ],
    };
    assert!(!frame.is_complete());
    let frame = DataFrame { rows: vec![] };
    assert!(frame.is_complete());
    assert_eq!(frame.x_samples(), vec![]);
}
