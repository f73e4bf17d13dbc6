use rosalind::counting::{factorial, fib, fibd};

#[test]
fn factorial_values() {
    assert_eq!(factorial(0), 1);
    assert_eq!(factorial(1), 1);
    assert_eq!(factorial(5), 120);
    assert_eq!(factorial(20), 2432902008176640000);
}

#[test]
fn fib_values() {
    assert_eq!(fib(2, 3), 1);
    assert_eq!(fib(5, 3), 19);
    assert_eq!(fib(6, 1), 8);
}

#[test]
fn fibd_values() {
    assert_eq!(fibd(0, 3), 0);
    assert_eq!(fibd(1, 3), 1);
    assert_eq!(fibd(6, 3), 4);
}
