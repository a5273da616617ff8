use fwt::{hadamard, power_of_2, sequency};

#[test]
fn test_hadamard() {
    let input_v = [1, 0, 0, 0, 0, 0, 0, 0];
    let result = hadamard(&input_v);
    assert_eq!(result, Some(vec![1, 1, 1, 1, 1, 1, 1, 1]));
    let input_v = [0, 1, 0, 0, 0, 0, 0, 0];
    let result = hadamard(&input_v);
    assert_eq!(result, Some(vec![1, -1, 1, -1, 1, -1, 1, -1]));
    let input_v = [0, 0, 1, 0, 0, 0, 0, 0];
    let result = hadamard(&input_v);
    assert_eq!(result, Some(vec![1, 1, -1, -1, 1, 1, -1, -1]));
    let input_v = [0, 0, 0, 1, 0, 0, 0, 0];
    let result = hadamard(&input_v);
    assert_eq!(result, Some(vec![1, -1, -1, 1, 1, -1, -1, 1]));
    let input_v = [0, 0, 0, 0, 1, 0, 0, 0];
    let result = hadamard(&input_v);
    assert_eq!(result, Some(vec![1, 1, 1, 1, -1, -1, -1, -1]));
    let input_v = [0, 0, 0, 0, 0, 1, 0, 0];
    let result = hadamard(&input_v);
    assert_eq!(result, Some(vec![1, -1, 1, -1, -1, 1, -1, 1]));
    let input_v = [0, 0, 0, 0, 0, 0, 1, 0];
    let result = hadamard(&input_v);
    assert_eq!(result, Some(vec![1, 1, -1, -1, -1, -1, 1, 1]));
    let input_v = [0, 0, 0, 0, 0, 0, 0, 1];
    let result = hadamard(&input_v);
    assert_eq!(result, Some(vec![1, -1, -1, 1, -1, 1, 1, -1]));
    let input_v = [0, 0, 0, 0, 0, 0, 0, 0, 0, 0, 0, 0, 0, 0, 0, 1];
    let result = hadamard(&input_v);
    assert_eq!(
        result,
        Some(vec![1, -1, -1, 1, -1, 1, 1, -1, -1, 1, 1, -1, 1, -1, -1, 1])
    );
    let input_v = [0, 0, 0, 0, 0, 0, 0, 0, 0, 0, 0, 0, 0, 0, 0, 1];
    let result = hadamard(&input_v);
    assert_eq!(
        result,
        Some(vec![1, -1, -1, 1, -1, 1, 1, -1, -1, 1, 1, -1, 1, -1, -1, 1])
    );
}

#[test]
fn test_sequency() {
    let input_v = [1, 0, 0, 0, 0, 0, 0, 0];
    let result = sequency(&input_v);
    assert_eq!(result, Some(vec![1, 1, 1, 1, 1, 1, 1, 1]));
    let input_v = [0, 1, 0, 0, 0, 0, 0, 0];
    let result = sequency(&input_v);
    assert_eq!(result, Some(vec![1, 1, 1, 1, -1, -1, -1, -1]));
    let input_v = [0, 0, 1, 0, 0, 0, 0, 0];
    let result = sequency(&input_v);
    assert_eq!(result, Some(vec![1, 1, -1, -1, -1, -1, 1, 1]));
    let input_v = [0, 0, 0, 1, 0, 0, 0, 0];
    let result = sequency(&input_v);
    assert_eq!(result, Some(vec![1, 1, -1, -1, 1, 1, -1, -1]));
    let input_v = [0, 0, 0, 0, 1, 0, 0, 0];
    let result = sequency(&input_v);
    assert_eq!(result, Some(vec![1, -1, -1, 1, 1, -1, -1, 1]));
    let input_v = [0, 0, 0, 0, 0, 1, 0, 0];
    let result = sequency(&input_v);
    assert_eq!(result, Some(vec![1, -1, -1, 1, -1, 1, 1, -1]));
    let input_v = [0, 0, 0, 0, 0, 0, 1, 0];
    let result = sequency(&input_v);
    assert_eq!(result, Some(vec![1, -1, 1, -1, -1, 1, -1, 1]));
    let input_v = [0, 0, 0, 0, 0, 0, 0, 1];
    let result = sequency(&input_v);
    assert_eq!(result, Some(vec![1, -1, 1, -1, 1, -1, 1, -1]));
    let input_v = [0, 1, 0, 0, 0, 0, 0, 0, 0, 0, 0, 0, 0, 0, 0, 0];
    let result = sequency(&input_v);
    assert_eq!(
        result,
        Some(vec![1, 1, 1, 1, 1, 1, 1, 1, -1, -1, -1, -1, -1, -1, -1, -1])
    );
    let input_v = [0, 1, 0, 0, 0, 0, 0, 0, 0, 0, 0, 0, 0, 0, 0, 0];
    let result = sequency(&input_v);
    assert_eq!(
        result,
        Some(vec![1, 1, 1, 1, 1, 1, 1, 1, -1, -1, -1, -1, -1, -1, -1, -1])
    );
}

#[test]
fn test_power_of_2() {
    assert!(power_of_2(1));
    assert!(power_of_2(2));
    assert!(power_of_2(4));
    assert!(power_of_2(8));
    assert!(power_of_2(16));
    assert!(power_of_2(1 << 31));
    assert!(!power_of_2(0));
    assert!(!power_of_2(3));
    assert!(!power_of_2(5));
    assert!(!power_of_2(7));
    assert!(!power_of_2(usize::MAX));
}

#[test]
fn test_empty_array() {
    let v: Vec<i64> = [].to_vec();
    assert_eq!(sequency(&v), None);
}

#[test]
fn invalid_length_rejected() {
    let v = [1, 2, 3];
    assert_eq!(sequency(&v), None);
    assert_eq!(hadamard(&v), None);
    let empty: Vec<i64> = Vec::new();
    assert_eq!(hadamard(&empty), None);
    assert_eq!(sequency(&empty), None);
}

#[test]
fn length_one_identity() {
    let v = [5];
    assert_eq!(sequency(&v), Some(vec![5]));
    assert_eq!(hadamard(&v), Some(vec![5]));
}

#[test]
fn exact_values_length_four() {
    let v = [1, 2, 3, 4];
    assert_eq!(sequency(&v), Some(vec![10, -4, 0, -2]));
    assert_eq!(hadamard(&v), Some(vec![10, -2, -4, 0]));
}

#[test]
fn round_trip_hadamard() {
    let v = vec![1, 2, 3, 4];
    let once = hadamard(&v).unwrap();
    let twice = hadamard(&once).unwrap();
    assert_eq!(twice, vec![4, 8, 12, 16]);
}

#[test]
fn round_trip_sequency() {
    let v = vec![7, -3, 0, 12, 5, 5, -8, 1];
    let once = sequency(&v).unwrap();
    let twice = sequency(&once).unwrap();
    let expected: Vec<i64> = v.iter().map(|&x| 8 * x).collect();
    assert_eq!(twice, expected);
}

#[test]
fn largest_elements_within_bound() {
    let b = i64::MAX / 2;
    let result = hadamard(&[b, -b]).unwrap();
    assert_eq!(result, vec![0, 2 * b]);
    let result = sequency(&[b, -b]).unwrap();
    assert_eq!(result, vec![0, 2 * b]);
}
