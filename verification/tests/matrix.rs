use gauss_jordan::elimination::SolveError;
use gauss_jordan::matrix::{Matrix, RowOperation};
use gauss_jordan::rational::Rational;

fn rat(n: i64, d: i64) -> Rational {
    Rational::new(n, d).unwrap()
}

fn whole(rows: &[&[i32]]) -> Matrix {
    Matrix::with_values(
        rows.iter().map(|row| row.iter().map(|v| Rational::from_int(*v)).collect()).collect(),
    )
}

fn grid(m: &Matrix) -> Vec<Vec<Rational>> {
    let [rows, columns] = m.order();
    (0..rows).map(|r| (0..columns).map(|c| m.get(r, c)).collect()).collect()
}

fn whole_grid(rows: &[&[i32]]) -> Vec<Vec<Rational>> {
    rows.iter().map(|row| row.iter().map(|v| Rational::from_int(*v)).collect()).collect()
}

#[test]
fn new_is_the_zero_matrix() {
    let m = Matrix::new(3);
    assert_eq!(m.order(), [3, 4]);
    assert_eq!(grid(&m), whole_grid(&[&[0, 0, 0, 0], &[0, 0, 0, 0], &[0, 0, 0, 0]]));
    let empty = Matrix::new(0);
    assert_eq!(empty.order(), [0, 1]);
    let large = Matrix::new(254);
    assert_eq!(large.order(), [254, 255]);
}

#[test]
fn with_values_takes_its_order_from_the_shape() {
    let m = whole(&[&[1, 2, 3], &[4, 5, 6]]);
    assert_eq!(m.order(), [2, 3]);
    assert_eq!(m.get(1, 2), Rational::from_int(6));
    assert_eq!(m.get(0, 1), Rational::from_int(2));
    let wide = whole(&[&[1, 2, 3, 4]]);
    assert_eq!(wide.order(), [1, 4]);
}

#[test]
fn scale_multiplies_one_row() {
    let mut m = whole(&[&[1, 2, 3], &[4, 5, 6]]);
    assert_eq!(m.row_operation(RowOperation::Scale { row: 1, factor: rat(1, 2) }), Ok(()));
    assert_eq!(
        grid(&m),
        vec![
            vec![rat(1, 1), rat(2, 1), rat(3, 1)],
            vec![rat(2, 1), rat(5, 2), rat(3, 1)],
        ]
    );
}

#[test]
fn add_subtracts_the_scaled_row() {
    let mut m = whole(&[&[1, 2, 3], &[4, 5, 6]]);
    assert_eq!(
        m.row_operation(RowOperation::Add { alter: 1, with: 0, scale: Rational::from_int(4) }),
        Ok(())
    );
    assert_eq!(grid(&m), whole_grid(&[&[1, 2, 3], &[0, -3, -6]]));
}

#[test]
fn add_of_a_row_to_itself() {
    let mut m = whole(&[&[1, 2, 3], &[4, 5, 6]]);
    assert_eq!(
        m.row_operation(RowOperation::Add { alter: 0, with: 0, scale: Rational::from_int(3) }),
        Ok(())
    );
    assert_eq!(grid(&m), whole_grid(&[&[-2, -4, -6], &[4, 5, 6]]));
}

#[test]
fn row_operation_leaves_the_matrix_on_overflow() {
    let big = rat(i64::MAX, 1);
    let mut m = Matrix::with_values(vec![vec![rat(1, 1), big, rat(2, 1)]]);
    assert_eq!(
        m.row_operation(RowOperation::Scale { row: 0, factor: rat(2, 1) }),
        Err(SolveError::Overflow)
    );
    assert_eq!(grid(&m), vec![vec![rat(1, 1), big, rat(2, 1)]]);
    assert_eq!(
        m.row_operation(RowOperation::Add { alter: 0, with: 0, scale: rat(-1, 1) }),
        Err(SolveError::Overflow)
    );
    assert_eq!(grid(&m), vec![vec![rat(1, 1), big, rat(2, 1)]]);
}

#[test]
fn solves_two_equations() {
    let mut m = whole(&[&[2, 1, 5], &[1, -1, 1]]);
    assert_eq!(m.solve_equation(), Ok(()));
    assert_eq!(grid(&m), whole_grid(&[&[1, 0, 2], &[0, 1, 1]]));
    assert_eq!(m.solution(), vec![rat(2, 1), rat(1, 1)]);
}

#[test]
fn solves_three_equations() {
    let mut m = whole(&[&[2, 1, -1, 8], &[-3, -1, 2, -11], &[-2, 1, 2, -3]]);
    assert_eq!(m.solve_equation(), Ok(()));
    assert_eq!(m.solution(), vec![rat(2, 1), rat(3, 1), rat(-1, 1)]);
    assert_eq!(grid(&m), whole_grid(&[&[1, 0, 0, 2], &[0, 1, 0, 3], &[0, 0, 1, -1]]));
}

#[test]
fn solves_with_fractions_in_the_answer() {
    let mut m = whole(&[&[3, 2, 1], &[1, 4, 1]]);
    assert_eq!(m.solve_equation(), Ok(()));
    assert_eq!(m.solution(), vec![rat(1, 5), rat(1, 5)]);
}

#[test]
fn solves_one_equation() {
    let mut m = whole(&[&[4, 2]]);
    assert_eq!(m.solve_equation(), Ok(()));
    assert_eq!(grid(&m), vec![vec![rat(1, 1), rat(1, 2)]]);
}

#[test]
fn identity_system_is_a_fixed_point() {
    let a = rat(-7, 3);
    let b = rat(22, 5);
    let rows = vec![vec![rat(1, 1), rat(0, 1), a], vec![rat(0, 1), rat(1, 1), b]];
    let mut m = Matrix::with_values(rows.clone());
    assert_eq!(m.solve_equation(), Ok(()));
    assert_eq!(grid(&m), rows);
    assert_eq!(m.solution(), vec![a, b]);
}

#[test]
fn identity_system_with_extreme_constants_is_a_fixed_point() {
    let a = rat(i64::MAX, 1);
    let b = rat(-1, i64::MAX);
    let c = rat(0, 1);
    let rows = vec![
        vec![rat(1, 1), rat(0, 1), rat(0, 1), a],
        vec![rat(0, 1), rat(1, 1), rat(0, 1), b],
        vec![rat(0, 1), rat(0, 1), rat(1, 1), c],
    ];
    let mut m = Matrix::with_values(rows.clone());
    assert_eq!(m.solve_equation(), Ok(()));
    assert_eq!(grid(&m), rows);
}

#[test]
fn zero_pivot_is_singular() {
    let mut m = whole(&[&[0, 1, 3], &[1, 0, 2]]);
    assert_eq!(m.solve_equation(), Err(SolveError::Singular));
    assert_eq!(grid(&m), whole_grid(&[&[0, 1, 3], &[1, 0, 2]]));
}

#[test]
fn dependent_rows_are_singular() {
    let mut m = whole(&[&[1, 2, 3], &[2, 4, 6]]);
    assert_eq!(m.solve_equation(), Err(SolveError::Singular));
    assert_eq!(grid(&m), whole_grid(&[&[1, 2, 3], &[2, 4, 6]]));
}

#[test]
fn zero_pivot_in_a_later_row_is_singular() {
    let mut m = whole(&[&[1, 1, 1, 3], &[1, 1, 2, 4], &[1, 2, 1, 4]]);
    assert_eq!(m.solve_equation(), Err(SolveError::Singular));
}

#[test]
fn single_zero_equation_is_singular() {
    let mut m = whole(&[&[0, 5]]);
    assert_eq!(m.solve_equation(), Err(SolveError::Singular));
}

#[test]
fn overflow_is_reported_and_leaves_the_matrix() {
    let big = rat(i64::MAX, 1);
    let rows = vec![vec![rat(1, 2), big, rat(1, 1)], vec![rat(1, 1), rat(1, 1), rat(1, 1)]];
    let mut m = Matrix::with_values(rows.clone());
    assert_eq!(m.solve_equation(), Err(SolveError::Overflow));
    assert_eq!(grid(&m), rows);
}

#[test]
fn solution_is_the_last_column() {
    let m = whole(&[&[1, 2, 3], &[4, 5, 6]]);
    assert_eq!(m.solution(), vec![rat(3, 1), rat(6, 1)]);
}

#[test]
fn solved_values_satisfy_the_equations() {
    let rows: [[i32; 4]; 3] = [[4, -2, 7, 1], [3, 5, -1, 9], [-6, 1, 2, 4]];
    let mut m = Matrix::with_values(
        rows.iter().map(|row| row.iter().map(|v| Rational::from_int(*v)).collect()).collect(),
    );
    assert_eq!(m.solve_equation(), Ok(()));
    let x = m.solution();
    for row in rows.iter() {
        let mut rest = Rational::from_int(row[3]);
        for c in 0..3 {
            let term = Rational::from_int(row[c]).checked_mul(&x[c]).unwrap();
            rest = rest.checked_sub(&term).unwrap();
        }
        assert!(rest.is_zero());
    }
}

#[test]
fn solution_agrees_with_floating_point() {
    let rows: [[i32; 4]; 3] = [[3, -1, 2, 7], [1, 4, -2, 5], [2, 3, 5, -1]];
    let mut m = Matrix::with_values(
        rows.iter().map(|row| row.iter().map(|v| Rational::from_int(*v)).collect()).collect(),
    );
    assert_eq!(m.solve_equation(), Ok(()));
    let x: Vec<f64> =
        m.solution().iter().map(|v| v.numerator() as f64 / v.denominator() as f64).collect();
    for row in rows.iter() {
        let left: f64 = (0..3).map(|c| row[c] as f64 * x[c]).sum();
        assert!((left - row[3] as f64).abs() < 1e-9);
    }
}
