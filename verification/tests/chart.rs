use r_approx::chart::{extremes, midway_of, step_strokes, value_range, Stroke};

#[test]
fn extremes_of_no_points_are_zero() {
    assert_eq!(extremes(&vec![]), (0, 0));
}

#[test]
fn extremes_are_the_least_and_the_greatest_value() {
    assert_eq!(extremes(&vec![(0, 5)]), (5, 5));
    assert_eq!(extremes(&vec![(0, 5), (1, -3), (2, 9), (3, 0)]), (-3, 9));
    assert_eq!(
        extremes(&vec![(0, i32::MAX), (1, i32::MIN)]),
        (i32::MIN, i32::MAX)
    );
}

#[test]
fn value_range_leaves_room_of_one_on_both_sides() {
    assert_eq!(value_range(&vec![], &vec![]), (-1, 1));
    assert_eq!(
        value_range(&vec![(0, 5), (1, -3)], &vec![(0, 2), (6, 7)]),
        (-4, 8)
    );
    assert_eq!(value_range(&vec![], &vec![(0, 5)]), (-1, 6));
    assert_eq!(value_range(&vec![(0, -5)], &vec![]), (-6, 1));
    assert_eq!(
        value_range(&vec![(0, i32::MIN + 1)], &vec![(0, i32::MAX - 1)]),
        (i32::MIN, i32::MAX)
    );
}

#[test]
fn midway_rounds_towards_zero() {
    assert_eq!(midway_of(-44, -38), -41);
    assert_eq!(midway_of(-5, 0), -2);
    assert_eq!(midway_of(5, 0), 2);
    assert_eq!(midway_of(-50, 70), 10);
    assert_eq!(midway_of(i32::MAX, i32::MAX), i32::MAX);
    assert_eq!(midway_of(i32::MIN, i32::MIN), i32::MIN);
    assert_eq!(midway_of(i32::MIN, i32::MAX), 0);
}

#[test]
fn equal_values_are_joined_by_one_level_stroke() {
    assert_eq!(
        step_strokes(&vec![(-50, 2), (-44, 2)]),
        vec![Stroke::Level {
            from: -50,
            to: -44,
            y: 2
        }]
    );
}

#[test]
fn different_values_are_joined_by_a_step_midway() {
    assert_eq!(
        step_strokes(&vec![(-50, 2), (-44, 2), (-38, 0), (-32, 1)]),
        vec![
            Stroke::Level {
                from: -50,
                to: -44,
                y: 2
            },
            Stroke::Level {
                from: -44,
                to: -41,
                y: 2
            },
            Stroke::Rise {
                x: -41,
                from: 0,
                to: 2
            },
            Stroke::Level {
                from: -41,
                to: -38,
                y: 0
            },
            Stroke::Level {
                from: -38,
                to: -35,
                y: 0
            },
            Stroke::Rise {
                x: -35,
                from: 0,
                to: 1
            },
            Stroke::Level {
                from: -35,
                to: -32,
                y: 1
            },
        ]
    );
}

#[test]
fn fewer_than_two_points_give_no_stroke() {
    assert_eq!(step_strokes(&vec![]), vec![]);
    assert_eq!(step_strokes(&vec![(0, 1)]), vec![]);
}
