use weighted_space::combination::WeightCombination;
use weighted_space::space::WeightedSpace;
use weighted_space::weight::Weight;

fn w(value: f64) -> Weight {
    Weight::from_bits(value.to_bits())
}

fn contents(space: &WeightedSpace, paths: &[&[u8]]) -> Vec<Option<Weight>> {
    paths.iter().map(|path| space.get_weight(path).unwrap()).collect()
}

#[test]
fn reads_give_back_writes_and_other_paths_stay() {
    let paths: [&[u8]; 4] = [b"", b"a", b"ab", b"\xff"];
    let mut space = WeightedSpace::new();
    for (i, path) in paths.iter().enumerate() {
        let before = contents(&space, &paths);
        space.set_weight(path, w(i as f64 + 0.25)).unwrap();
        let after = contents(&space, &paths);
        for j in 0..paths.len() {
            let expected = if i == j { Some(w(i as f64 + 0.25)) } else { before[j] };
            assert_eq!(after[j], expected);
        }
    }
}

#[test]
fn writes_commute_and_the_last_one_counts() {
    let paths: [&[u8]; 3] = [b"p", b"pq", b"r"];
    let mut one = WeightedSpace::new();
    one.set_weight(b"p", w(1.0)).unwrap();
    one.set_weight(b"pq", w(2.0)).unwrap();
    one.set_weight(b"p", w(3.0)).unwrap();
    let mut other = WeightedSpace::new();
    other.set_weight(b"pq", w(2.0)).unwrap();
    other.set_weight(b"p", w(3.0)).unwrap();
    assert_eq!(contents(&one, &paths), contents(&other, &paths));
    assert_eq!(one.total_weight().unwrap(), other.total_weight().unwrap());
    assert_eq!(one.weight_count().unwrap(), 2);
}

#[test]
fn adding_and_multiplying_set_what_is_not_there() {
    for value in [2.5, 0.0, 5e-324, f64::NEG_INFINITY] {
        let mut space = WeightedSpace::new();
        assert_eq!(space.add_weight(b"a", w(value)).unwrap(), w(value));
        assert_eq!(space.multiply_weight(b"m", w(value)).unwrap(), w(value));
        assert_eq!(space.get_weight(b"a").unwrap(), Some(w(value)));
        assert_eq!(space.get_weight(b"m").unwrap(), Some(w(value)));
    }
    // minus zero is the one number that addition does not give back
    let mut space = WeightedSpace::new();
    assert_eq!(space.add_weight(b"a", w(-0.0)).unwrap(), w(0.0));
    assert_eq!(space.multiply_weight(b"m", w(-0.0)).unwrap(), w(-0.0));
}

#[test]
fn counts_grow_with_new_paths_only() {
    let mut space = WeightedSpace::new();
    for (path, count) in [(b"x" as &[u8], 1), (b"y", 2), (b"x", 2), (b"", 3), (b"xy", 4), (b"y", 4)] {
        space.set_weight(path, w(1.0)).unwrap();
        assert_eq!(space.weight_count().unwrap(), count);
    }
}

#[test]
fn the_total_of_one_weight_is_that_weight() {
    let mut space = WeightedSpace::new();
    space.set_weight(b"only", w(0.1)).unwrap();
    assert_eq!(space.total_weight().unwrap(), w(0.1));
}

#[test]
fn an_empty_space_is_open() {
    let mut space = WeightedSpace::new();
    assert_eq!(space.get_weight(b"any").unwrap(), None);
    assert_eq!(space.weight_count().unwrap(), 0);
    assert_eq!(space.total_weight().unwrap(), w(0.0));
    assert!(space.new_writer(b"", &()).is_ok());
}

#[test]
fn one_weight_combines_to_itself_and_none_to_zero() {
    let strategies = [
        WeightCombination::Add,
        WeightCombination::Multiply,
        WeightCombination::Max,
        WeightCombination::Min,
        WeightCombination::Average,
    ];
    let mut space = WeightedSpace::new();
    for strategy in strategies {
        space.set_weight_combination(strategy);
        assert_eq!(space.combine_weights(&[]), w(0.0));
        for value in [0.1, -7.0, -0.0, 0.0, f64::INFINITY, f64::NEG_INFINITY] {
            assert_eq!(space.combine_weights(&[w(value)]), w(value));
        }
    }
}

#[test]
fn extremes_are_among_the_weights() {
    let mut space = WeightedSpace::new();
    let weights = [w(f64::NAN), w(-2.0), w(7.5), w(f64::NAN), w(-9.0)];
    space.set_weight_combination(WeightCombination::Max);
    assert_eq!(space.combine_weights(&weights), w(7.5));
    assert_eq!(space.combine_weights(&[w(f64::NAN)]), w(f64::NEG_INFINITY));
    space.set_weight_combination(WeightCombination::Min);
    assert_eq!(space.combine_weights(&weights), w(-9.0));
    assert_eq!(space.combine_weights(&[w(f64::NAN)]), w(f64::INFINITY));
}

#[test]
fn separate_paths_do_not_interfere() {
    let mut space = WeightedSpace::new();
    let held = space.new_writer(b"abc", &()).unwrap();
    assert!(space.set_weight(b"abd", w(1.0)).is_ok());
    assert!(space.set_weight(b"b", w(1.0)).is_ok());
    assert!(space.new_reader(b"abd", &()).is_ok());
    assert!(space.set_weight(b"ab", w(1.0)).is_err());
    space.release_writer(held);
}

#[test]
fn returned_permissions_leave_no_trace() {
    let mut space = WeightedSpace::new();
    let first = space.new_reader(b"k", &()).unwrap();
    let second = space.new_reader(b"k", &()).unwrap();
    space.release_reader(second);
    let error = space.new_writer(b"k", &()).unwrap_err();
    assert!(error.text().ends_with("read zipper (arity: 1) @ [107]\n"));
    space.release_reader(first);
    let writer = space.new_writer(b"k", &()).unwrap();
    space.release_writer(writer);
    assert!(space.new_reader(b"k", &()).is_ok());
}
