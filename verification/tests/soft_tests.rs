use sudoku_solver::SoftConstraint;
use sudoku_solver::Value;

#[test]
fn default_num_sols() {
    let sc = SoftConstraint::default();
    assert!(sc.unique_solution().is_none());
    assert_eq!(sc.smallest_solution().unwrap().value(), 1);
    assert!(sc.has_solutions());
    for i in 1..=9 {
        assert!(sc.has_solution(Value::new(i)));
    }
    assert_eq!(sc.num_solutions(), 9);
}

#[test]
fn from_val() {
    let sc = SoftConstraint::from(Value::new(6));
    assert_eq!(sc.unique_solution().unwrap(), Value::new(6));
    assert_eq!(sc.smallest_solution().unwrap().value(), 6);
    assert!(sc.has_solutions());
    for i in 1..=9 {
        assert_eq!(sc.has_solution(Value::new(i)), i == 6);
    }
    assert_eq!(sc.num_solutions(), 1);
}

#[test]
fn from_opt_val() {
    let sc = SoftConstraint::from(Some(Value::new(2)));
    assert_eq!(sc.unique_solution().unwrap(), Value::new(2));
    assert_eq!(sc.smallest_solution().unwrap().value(), 2);
    assert!(sc.has_solutions());
    for i in 1..=9 {
        assert_eq!(sc.has_solution(Value::new(i)), i == 2);
    }
    assert_eq!(sc.num_solutions(), 1);
}

#[test]
fn from_none() {
    let sc = SoftConstraint::from(None);
    assert!(sc.unique_solution().is_none());
    assert_eq!(sc.smallest_solution().unwrap().value(), 1);
    assert!(sc.has_solutions());
    for i in 1..=9 {
        assert!(sc.has_solution(Value::new(i)));
    }
    assert_eq!(sc.num_solutions(), 9);
}

#[test]
fn forbid() {
    let mut sc = SoftConstraint::from(None);
    sc.forbid(Value::new(1));
    assert!(sc.unique_solution().is_none());
    assert_eq!(sc.smallest_solution().unwrap().value(), 2);
    assert!(sc.has_solutions());
    for i in 1..=9 {
        assert_eq!(sc.has_solution(Value::new(i)), i != 1);
    }
    assert_eq!(sc.num_solutions(), 8);
}

#[test]
fn all_values_ascending() {
    let mut sc = SoftConstraint::default();
    sc.forbid(Value::new(4));
    sc.forbid(Value::new(7));
    let vals: Vec<u8> = sc.all_values().iter().map(|v| v.value()).collect();
    assert_eq!(vals, vec![1, 2, 3, 5, 6, 8, 9]);
}
