use interpolation::algorithm::average;

#[test]
fn test_interpolation_test_average() {
    let v = vec![];
    assert_eq!(average(v), 0);

    let v2 = vec![1_000_000, 2_000_000, 3_000_000, 4_000_000];
    assert_eq!(average(v2), 2_500_000);
}
