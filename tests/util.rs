use bookworm::cartesian_product;

#[test]
pub fn test() {
    let result = cartesian_product(&[vec!["1", "2"], vec!["a", "b"], vec!["x", "y", "z"]]);

    assert_eq!(
        result,
        &[
            ["1", "a", "x"],
            ["2", "a", "x"],
            ["1", "b", "x"],
            ["2", "b", "x"],
            ["1", "a", "y"],
            ["2", "a", "y"],
            ["1", "b", "y"],
            ["2", "b", "y"],
            ["1", "a", "z"],
            ["2", "a", "z"],
            ["1", "b", "z"],
            ["2", "b", "z"],
        ]
    );
}

#[test]
fn cartesian_product_of_nothing_is_one_empty_tuple() {
    let result: Vec<Vec<u8>> = cartesian_product(&[]);
    assert_eq!(result, vec![Vec::<u8>::new()]);
}

#[test]
fn cartesian_product_with_empty_list_is_empty() {
    let result = cartesian_product(&[vec![1, 2], vec![]]);
    assert!(result.is_empty());
}
