use r_approx::polynomial::{canonical_len, degree_slots, render, PolynomialError, Term};

fn term(value: f64) -> Term {
    Term {
        zero: value == 0.0,
        negative: value < 0.0,
        unit: value.abs() == 1.0,
        text: format!("{}", value),
        magnitude: format!("{}", value.abs()),
    }
}

fn text_of(coefficients: &[f64]) -> String {
    let terms: Vec<Term> = coefficients.iter().map(|c| term(*c)).collect();
    render(&terms)
}

#[test]
fn repeated_degree_is_a_collision_in_any_order() {
    assert_eq!(degree_slots(&vec![1, 1]), Err(PolynomialError::DegreeCollision));
    assert_eq!(degree_slots(&vec![0, 2, 0]), Err(PolynomialError::DegreeCollision));
    assert_eq!(degree_slots(&vec![2, 0, 0]), Err(PolynomialError::DegreeCollision));
    assert_eq!(degree_slots(&vec![0, 0, 2]), Err(PolynomialError::DegreeCollision));
    assert_eq!(
        degree_slots(&vec![7, 3, 5, 1, 3]),
        Err(PolynomialError::DegreeCollision)
    );
}

#[test]
fn no_term_is_empty_input() {
    assert_eq!(degree_slots(&vec![]), Err(PolynomialError::EmptyInput));
}

#[test]
fn degrees_are_laid_out_with_gaps() {
    assert_eq!(degree_slots(&vec![2]), Ok(vec![None, None, Some(0)]));
    assert_eq!(degree_slots(&vec![0]), Ok(vec![Some(0)]));
    assert_eq!(
        degree_slots(&vec![5, 0]),
        Ok(vec![Some(1), None, None, None, None, Some(0)])
    );
    assert_eq!(
        degree_slots(&vec![1, 0, 2]),
        Ok(vec![Some(1), Some(0), Some(2)])
    );
}

#[test]
fn no_coefficient_is_empty_input() {
    assert_eq!(canonical_len(&vec![]), Err(PolynomialError::EmptyInput));
}

#[test]
fn zeros_at_the_high_end_are_cut() {
    assert_eq!(canonical_len(&vec![false]), Ok(1));
    assert_eq!(canonical_len(&vec![true]), Ok(1));
    assert_eq!(canonical_len(&vec![true, true, true]), Ok(1));
    assert_eq!(canonical_len(&vec![false, true, false, true, true]), Ok(3));
    assert_eq!(canonical_len(&vec![true, false]), Ok(2));
    assert_eq!(canonical_len(&vec![false, true]), Ok(1));
}

#[test]
fn cutting_twice_is_cutting_once() {
    let lists = [
        vec![true, true, true],
        vec![false, true, false, true, true],
        vec![false, false],
        vec![true, false, true],
    ];
    for zero in lists {
        let len = canonical_len(&zero).unwrap();
        let cut: Vec<bool> = zero[..len].to_vec();
        assert_eq!(canonical_len(&cut), Ok(len));
    }
}

#[test]
fn constant_is_written_as_its_coefficient() {
    assert_eq!(text_of(&[7.0]), "7");
    assert_eq!(text_of(&[-2.5]), "-2.5");
    assert_eq!(text_of(&[0.0]), "0");
    assert_eq!(text_of(&[1.0]), "1");
    assert_eq!(text_of(&[-1.0]), "-1");
}

#[test]
fn unit_coefficients_are_left_out() {
    assert_eq!(text_of(&[0.0, 0.0, 1.0]), "x^2");
    assert_eq!(text_of(&[0.0, 0.0, -1.0]), "-x^2");
    assert_eq!(text_of(&[-1.0, 0.0, 0.0, 0.0, 0.0, 1.0]), "x^5 - 1");
    assert_eq!(text_of(&[1.0, 1.0, 1.0]), "x^2 + x^1 + 1");
    assert_eq!(text_of(&[2.0, -1.0]), "-x^1 + 2");
}

#[test]
fn terms_stand_from_the_highest_degree_down() {
    assert_eq!(text_of(&[-2.5, 1.0, 3.0]), "3x^2 + x^1 - 2.5");
    assert_eq!(text_of(&[4.0, 0.0, -3.0, 0.5]), "0.5x^3 - 3x^2 + 4");
    assert_eq!(
        text_of(&[0.0, 0.0, 0.0, 0.0, 0.0, 0.0, 0.0, 0.0, 0.0, 0.0, -7.0, 2.0]),
        "2x^11 - 7x^10"
    );
    assert_eq!(text_of(&[1.0, 0.0]), "0x^1 + 1");
}

#[test]
fn no_coefficient_is_written_as_empty() {
    assert_eq!(render(&vec![]), "<empty>");
}

#[test]
#[should_panic]
fn degree_collision() {
    let _a = degree_slots(&vec![1, 1]).unwrap();
}

#[test]
#[should_panic]
fn empty_vector() {
    let _a = canonical_len(&Vec::<bool>::default()).unwrap();
}

#[test]
fn terms_given_from_the_highest_degree_down_are_laid_out() {
    assert_eq!(
        degree_slots(&vec![3, 1, 0]),
        Ok(vec![Some(2), Some(1), None, Some(0)])
    );
    let slots = degree_slots(&vec![127, 64, 0]).unwrap();
    assert_eq!(slots.len(), 128);
    assert_eq!(slots[127], Some(0));
    assert_eq!(slots[64], Some(1));
    assert_eq!(slots[0], Some(2));
    assert_eq!(slots.iter().filter(|slot| slot.is_some()).count(), 3);
}
