use gkr::hypercube::boolean_hypercube;

#[test]
fn test_boolean_hypercube() {
    let result_2: Vec<String> = boolean_hypercube(2);
    let result: Vec<String> = boolean_hypercube(3);
    assert_eq!(
        result,
        vec!["000", "001", "010", "011", "100", "101", "110", "111"]
    );
    assert_eq!(result_2, vec!["00", "01", "10", "11"]);
}

#[test]
fn test_boolean_hypercube_ascending() {
    let result: Vec<String> = boolean_hypercube(3);
    assert_eq!(result.len(), 8);
    for (i, label) in result.iter().enumerate() {
        assert_eq!(label, &format!("{:03b}", i));
    }
}
