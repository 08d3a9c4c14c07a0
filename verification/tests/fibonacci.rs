use spline_spectral::FibonacciSpline;

#[test]
fn test_evaluation_count_fibonacci() {
    assert_eq!(FibonacciSpline::evaluation_count(0), 1);
    assert_eq!(FibonacciSpline::evaluation_count(1), 3);
    assert_eq!(FibonacciSpline::evaluation_count(2), 5); // 3 + 1 + 1
    assert_eq!(FibonacciSpline::evaluation_count(3), 9); // 5 + 3 + 1
    assert_eq!(FibonacciSpline::evaluation_count(4), 15); // 9 + 5 + 1
}

#[test]
fn test_basis_count() {
    assert_eq!(FibonacciSpline::basis_count(10, 3), 6);
    assert_eq!(FibonacciSpline::basis_count(5, 1), 3);
}

#[test]
fn evaluation_count_is_twice_fibonacci_minus_one() {
    // count(p) + 1 == 2 * fib(p + 2)
    let fib: Vec<u64> = vec![0, 1, 1, 2, 3, 5, 8, 13, 21, 34, 55, 89];
    for p in 0..10usize {
        assert_eq!(FibonacciSpline::evaluation_count(p) + 1, 2 * fib[p + 2]);
    }
    assert_eq!(FibonacciSpline::evaluation_count(5), 25);
    assert_eq!(FibonacciSpline::evaluation_count(6), 41);
}

#[test]
fn evaluation_count_largest_degree_that_fits() {
    // 2 * fib(92) - 1
    assert_eq!(FibonacciSpline::evaluation_count(90), 15080227609492692857);
}

#[test]
fn basis_count_too_few_knots_is_zero() {
    assert_eq!(FibonacciSpline::basis_count(4, 3), 0);
    assert_eq!(FibonacciSpline::basis_count(3, 3), 0);
    assert_eq!(FibonacciSpline::basis_count(0, 0), 0);
    assert_eq!(FibonacciSpline::basis_count(2, 0), 1);
}

#[test]
fn basis_count_shape_knots_equal_controls_plus_degree_plus_one() {
    for degree in 0..6usize {
        for n_knots in (degree + 2)..20 {
            assert_eq!(FibonacciSpline::basis_count(n_knots, degree) + degree + 1, n_knots);
        }
    }
}

#[test]
fn fibonacci_knot_values_cubic_twelve() {
    let knots = FibonacciSpline::fibonacci_knot_values(3, 12);
    assert_eq!(knots, vec![0, 0, 0, 0, 1, 2, 3, 5, 144, 144, 144, 144]);
}

#[test]
fn fibonacci_knot_values_cubic_ten() {
    let knots = FibonacciSpline::fibonacci_knot_values(3, 10);
    assert_eq!(knots, vec![0, 0, 0, 0, 1, 2, 55, 55, 55, 55]);
}

#[test]
fn fibonacci_knot_values_too_few_knots() {
    // one control point: degree + 2 knots
    assert_eq!(FibonacciSpline::fibonacci_knot_values(3, 2), vec![0, 0, 0, 0, 1]);
    assert_eq!(FibonacciSpline::fibonacci_knot_values(0, 0), vec![0, 1]);
}

#[test]
fn fibonacci_knot_values_sorted_and_shaped() {
    for degree in 0..5usize {
        for n_knots in 0..40usize {
            let knots = FibonacciSpline::fibonacci_knot_values(degree, n_knots);
            let n_control = if n_knots > degree + 1 { n_knots - degree - 1 } else { 1 };
            assert_eq!(knots.len(), n_control + degree + 1);
            for w in knots.windows(2) {
                assert!(w[0] <= w[1]);
            }
            for k in knots.iter().take(degree + 1) {
                assert_eq!(*k, 0);
            }
        }
    }
}

#[test]
fn fibonacci_knot_values_largest_table() {
    let knots = FibonacciSpline::fibonacci_knot_values(1, 93);
    assert_eq!(knots.len(), 93);
    assert_eq!(knots[92], 12200160415121876738);
}
