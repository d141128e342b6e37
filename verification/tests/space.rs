use weighted_space::combination::WeightCombination;
use weighted_space::space::WeightedSpace;
use weighted_space::weight::Weight;

fn w(value: f64) -> Weight {
    Weight::from_bits(value.to_bits())
}

fn f(weight: Weight) -> f64 {
    f64::from_bits(weight.to_bits())
}

fn ws(values: &[f64]) -> Vec<Weight> {
    values.iter().map(|value| w(*value)).collect()
}

fn read(space: &WeightedSpace, path: &[u8]) -> Option<f64> {
    space.get_weight(path).unwrap().map(f)
}

#[test]
fn test_weighted_space_creation() {
    let space = WeightedSpace::new();
    assert_eq!(space.weight_combination(), WeightCombination::Add);

    let space_max = WeightedSpace::with_weight_combination(WeightCombination::Max);
    assert_eq!(space_max.weight_combination(), WeightCombination::Max);
}

#[test]
fn test_weight_combination_strategies() {
    let weights = ws(&[2.0, 3.0, 4.0]);

    let mut space = WeightedSpace::with_weight_combination(WeightCombination::Add);
    assert_eq!(f(space.combine_weights(&weights)), 9.0);

    space.set_weight_combination(WeightCombination::Multiply);
    assert_eq!(f(space.combine_weights(&weights)), 24.0);

    space.set_weight_combination(WeightCombination::Max);
    assert_eq!(f(space.combine_weights(&weights)), 4.0);

    space.set_weight_combination(WeightCombination::Min);
    assert_eq!(f(space.combine_weights(&weights)), 2.0);

    space.set_weight_combination(WeightCombination::Average);
    assert_eq!(f(space.combine_weights(&weights)), 3.0);
}

#[test]
fn test_empty_weights() {
    let space = WeightedSpace::new();
    assert_eq!(f(space.combine_weights(&[])), 0.0);
}

#[test]
fn test_set_and_get_weight() {
    let mut space = WeightedSpace::new();
    let path = b"test_path";
    let weight = 42.5;

    // Initially no weight
    assert_eq!(read(&space, path), None);

    // Set weight
    space.set_weight(path, w(weight)).unwrap();

    // Get weight
    assert_eq!(read(&space, path), Some(weight));
}

#[test]
fn test_add_weight() {
    let mut space = WeightedSpace::new();
    let path = b"test_path";

    // Add to non-existent weight (should default to 0.0)
    let result = f(space.add_weight(path, w(10.0)).unwrap());
    assert_eq!(result, 10.0);
    assert_eq!(read(&space, path), Some(10.0));

    // Add to existing weight
    let result = f(space.add_weight(path, w(5.0)).unwrap());
    assert_eq!(result, 15.0);
    assert_eq!(read(&space, path), Some(15.0));
}

#[test]
fn test_multiply_weight() {
    let mut space = WeightedSpace::new();
    let path = b"test_path";

    // Multiply non-existent weight (should default to 1.0)
    let result = f(space.multiply_weight(path, w(3.0)).unwrap());
    assert_eq!(result, 3.0);
    assert_eq!(read(&space, path), Some(3.0));

    // Multiply existing weight
    let result = f(space.multiply_weight(path, w(2.0)).unwrap());
    assert_eq!(result, 6.0);
    assert_eq!(read(&space, path), Some(6.0));
}

#[test]
fn test_total_weight() {
    let mut space = WeightedSpace::new();

    // Empty space
    assert_eq!(f(space.total_weight().unwrap()), 0.0);

    // Add some weights
    space.set_weight(b"path1", w(10.0)).unwrap();
    space.set_weight(b"path2", w(20.0)).unwrap();
    space.set_weight(b"path3", w(30.0)).unwrap();

    assert_eq!(f(space.total_weight().unwrap()), 60.0);
}

#[test]
fn test_weight_count() {
    let mut space = WeightedSpace::new();

    // Empty space
    assert_eq!(space.weight_count().unwrap(), 0);

    // Add some weights
    space.set_weight(b"path1", w(10.0)).unwrap();
    space.set_weight(b"path2", w(20.0)).unwrap();
    space.set_weight(b"path3", w(30.0)).unwrap();

    assert_eq!(space.weight_count().unwrap(), 3);
}

#[test]
fn test_multiple_paths() {
    let mut space = WeightedSpace::new();

    let paths = [b"path1", b"path2", b"path3"];
    let weights = [1.5, 2.5, 3.5];

    // Set weights for multiple paths
    for (path, weight) in paths.iter().zip(weights.iter()) {
        space.set_weight(*path, w(*weight)).unwrap();
    }

    // Verify all weights are set correctly
    for (path, expected_weight) in paths.iter().zip(weights.iter()) {
        assert_eq!(read(&space, *path), Some(*expected_weight));
    }

    // Verify total weight
    assert_eq!(f(space.total_weight().unwrap()), 7.5);
    assert_eq!(space.weight_count().unwrap(), 3);
}

#[test]
fn test_weight_overwrite() {
    let mut space = WeightedSpace::new();
    let path = b"test_path";

    // Set initial weight
    space.set_weight(path, w(10.0)).unwrap();
    assert_eq!(read(&space, path), Some(10.0));

    // Overwrite with new weight
    space.set_weight(path, w(20.0)).unwrap();
    assert_eq!(read(&space, path), Some(20.0));
}

#[test]
fn test_negative_weights() {
    let mut space = WeightedSpace::new();
    let path = b"test_path";

    // Test negative weights
    space.set_weight(path, w(-5.0)).unwrap();
    assert_eq!(read(&space, path), Some(-5.0));

    // Add to negative weight
    let result = f(space.add_weight(path, w(10.0)).unwrap());
    assert_eq!(result, 5.0);
    assert_eq!(read(&space, path), Some(5.0));
}

#[test]
fn test_zero_weights() {
    let mut space = WeightedSpace::new();
    let path = b"test_path";

    // Test zero weight
    space.set_weight(path, w(0.0)).unwrap();
    assert_eq!(read(&space, path), Some(0.0));

    // Add to zero weight
    let result = f(space.add_weight(path, w(5.0)).unwrap());
    assert_eq!(result, 5.0);
}

#[test]
fn test_fractional_weights() {
    let mut space = WeightedSpace::new();
    let path = b"test_path";

    // Test fractional weights
    space.set_weight(path, w(3.14159)).unwrap();
    assert_eq!(read(&space, path), Some(3.14159));

    // Multiply fractional weights
    let result = f(space.multiply_weight(path, w(2.0)).unwrap());
    assert!((result - 6.28318).abs() < 1e-5);
}

#[test]
fn expressions_with_weights() {
    let mut space = WeightedSpace::new();
    space.set_weight(b"expression1", w(10.5)).unwrap();
    space.set_weight(b"expression2", w(20.0)).unwrap();
    space.set_weight(b"expression3", w(5.5)).unwrap();
    assert_eq!(read(&space, b"expression1"), Some(10.5));
    assert_eq!(f(space.add_weight(b"expression1", w(5.0)).unwrap()), 15.5);
    assert_eq!(f(space.total_weight().unwrap()), 41.0);

    let weights = ws(&[10.0, 20.0, 5.0]);
    space.set_weight_combination(WeightCombination::Max);
    assert_eq!(f(space.combine_weights(&weights)), 20.0);
    space.set_weight_combination(WeightCombination::Multiply);
    assert_eq!(f(space.combine_weights(&weights)), 1000.0);
}

#[test]
fn a_weight_is_read_at_its_own_path_only() {
    let mut space = WeightedSpace::new();
    space.set_weight(b"ab", w(1.0)).unwrap();
    space.set_weight(b"abcd", w(2.0)).unwrap();
    assert_eq!(read(&space, b"ab"), Some(1.0));
    assert_eq!(read(&space, b"abcd"), Some(2.0));
    assert_eq!(read(&space, b"a"), None);
    assert_eq!(read(&space, b"abc"), None);
    assert_eq!(read(&space, b""), None);
}

#[test]
fn the_empty_path_has_a_weight_like_any_other() {
    let mut space = WeightedSpace::new();
    space.set_weight(b"", w(0.5)).unwrap();
    assert_eq!(space.weight_count().unwrap(), 1);
    assert_eq!(f(space.total_weight().unwrap()), 0.5);
    space.set_weight(b"x", w(2.0)).unwrap();
    assert_eq!(read(&space, b""), Some(0.5));
    assert_eq!(space.weight_count().unwrap(), 2);
    assert_eq!(f(space.total_weight().unwrap()), 2.5);
}

#[test]
fn totals_are_taken_in_path_order() {
    let mut space = WeightedSpace::new();
    // taken as 1e16 + 1 - 1e16 the small weight is lost
    space.set_weight(b"c", w(-1e16)).unwrap();
    space.set_weight(b"b", w(1.0)).unwrap();
    space.set_weight(b"a", w(1e16)).unwrap();
    assert_eq!(f(space.total_weight().unwrap()), 0.0);
    // and as 1e16 - 1e16 + 1 it is not
    space.set_weight(b"a\xff", w(-1e16)).unwrap();
    space.set_weight(b"c", w(0.0)).unwrap();
    assert_eq!(f(space.total_weight().unwrap()), 1.0);
}

#[test]
fn combined_weights_agree_with_the_machine() {
    let lists: Vec<Vec<f64>> = vec![
        vec![0.1, 0.2, 0.3],
        vec![-0.0],
        vec![-0.0, 0.0],
        vec![1e308, 1e308],
        vec![1.0, f64::NAN, -3.5],
        vec![f64::NAN],
        vec![f64::INFINITY, f64::NEG_INFINITY],
        vec![5e-324, 5e-324, 5e-324],
        vec![1.0; 49],
    ];
    for list in lists {
        let weights = ws(&list);
        let mut space = WeightedSpace::new();
        let sum: f64 = list.iter().sum();
        let product: f64 = list.iter().product();
        let largest = list.iter().fold(f64::NEG_INFINITY, |a, &b| a.max(b));
        let smallest = list.iter().fold(f64::INFINITY, |a, &b| a.min(b));
        let average = list.iter().sum::<f64>() / list.len() as f64;
        let expected = [
            (WeightCombination::Add, sum),
            (WeightCombination::Multiply, product),
            (WeightCombination::Max, largest),
            (WeightCombination::Min, smallest),
            (WeightCombination::Average, average),
        ];
        for (strategy, value) in expected {
            space.set_weight_combination(strategy);
            let got = f(space.combine_weights(&weights));
            assert!(got == value || (got.is_nan() && value.is_nan()), "{strategy:?} {list:?}");
        }
    }
    let mut space = WeightedSpace::new();
    assert_eq!(space.combine_weights(&ws(&[-0.0])).to_bits(), (-0.0f64).to_bits());
    space.set_weight_combination(WeightCombination::Average);
    assert_eq!(space.combine_weights(&[]).to_bits(), 0);
}
