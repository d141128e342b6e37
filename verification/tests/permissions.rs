use weighted_space::combination::WeightCombination;
use weighted_space::errors::WeightedPermissionErr;
use weighted_space::permissions::{WeightedSpaceReader, WeightedSpaceWriter};
use weighted_space::settle::{settle, Attempt, Settled, SETTLE_MILLIS};
use weighted_space::space::WeightedSpace;
use weighted_space::weight::Weight;

fn w(value: f64) -> Weight {
    Weight::from_bits(value.to_bits())
}

fn f(weight: Weight) -> f64 {
    f64::from_bits(weight.to_bits())
}

#[test]
fn refused_writers_tell_what_stands_in_their_way() {
    let mut space = WeightedSpace::new();
    let writer = space.new_writer(&[1, 20], &()).unwrap();
    let error = space.new_writer(&[1, 20, 255], &()).unwrap_err();
    assert_eq!(error.path(), &[1, 20, 255]);
    assert_eq!(
        error.text(),
        "Conflict trying to acquire write zipper at [1, 20, 255], \
         conflicts with existing zipper: write zipper @ [1, 20]\n"
    );
    space.release_writer(writer);
    assert!(space.new_writer(&[1, 20, 255], &()).is_ok());
}

#[test]
fn refused_readers_tell_what_stands_in_their_way() {
    let mut space = WeightedSpace::new();
    let _writer = space.new_writer(b"ab", &()).unwrap();
    for path in [b"" as &[u8], b"a", b"ab", b"abc"] {
        let error = space.new_reader(path, &()).unwrap_err();
        assert_eq!(error.path(), path);
        assert_eq!(
            error.text(),
            format!(
                "Conflict trying to acquire read zipper at {path:?}, \
                 conflicts with existing zipper: write zipper @ [97, 98]\n"
            )
        );
    }
    assert!(space.new_reader(b"ac", &()).is_ok());
    assert!(space.new_reader(b"b", &()).is_ok());
}

#[test]
fn readers_share_and_are_counted() {
    let mut space = WeightedSpace::new();
    let mut readers: Vec<WeightedSpaceReader> = Vec::new();
    for _ in 0..12 {
        readers.push(space.new_reader(b"k", &()).unwrap());
    }
    readers.push(space.new_reader(b"kk", &()).unwrap());
    readers.push(space.new_reader(b"", &()).unwrap());
    let error = space.new_writer(b"k", &()).unwrap_err();
    // the reader of the empty path is met first
    assert_eq!(
        error.text(),
        "Conflict trying to acquire write zipper at [107], \
         conflicts with existing zipper: read zipper (arity: 1) @ []\n"
    );
    space.release_reader(readers.pop().unwrap());
    let error = space.new_writer(b"k", &()).unwrap_err();
    assert!(error.text().ends_with("read zipper (arity: 12) @ [107]\n"));
    for _ in 0..11 {
        space.release_reader(readers.remove(0));
        assert!(space.new_writer(b"k", &()).is_err());
    }
    space.release_reader(readers.remove(0));
    let error = space.new_writer(b"k", &()).unwrap_err();
    assert!(error.text().ends_with("read zipper (arity: 1) @ [107, 107]\n"));
    space.release_reader(readers.remove(0));
    assert!(readers.is_empty());
    assert!(space.new_writer(b"k", &()).is_ok());
}

#[test]
fn writers_stand_in_the_way_before_readers() {
    let mut space = WeightedSpace::new();
    let _reader = space.new_reader(b"a", &()).unwrap();
    let _writer = space.new_writer(b"b", &()).unwrap();
    let error = space.new_writer(b"", &()).unwrap_err();
    assert!(error.text().ends_with("write zipper @ [98]\n"));
}

#[test]
fn held_paths_refuse_weights() {
    let mut space = WeightedSpace::with_weight_combination(WeightCombination::Min);
    space.set_weight(b"p", w(1.0)).unwrap();
    let writer = space.new_writer(b"p", &()).unwrap();
    assert!(space.get_weight(b"p").is_err());
    assert!(space.get_weight(b"pq").is_err());
    assert!(space.set_weight(b"pq", w(2.0)).is_err());
    assert!(space.add_weight(b"p", w(2.0)).is_err());
    assert!(space.multiply_weight(b"p", w(2.0)).is_err());
    assert!(space.total_weight().is_err());
    assert_eq!(
        space.weight_count().unwrap_err().text(),
        "Conflict trying to acquire read zipper at [], \
         conflicts with existing zipper: write zipper @ [112]\n"
    );
    assert!(space.get_weight(b"q").unwrap().is_none());
    assert_eq!(space.writer_val(&writer), Some(w(1.0)));
    space.writer_set_val(&writer, w(7.0));
    assert_eq!(space.writer_val(&writer), Some(w(7.0)));
    space.release_writer(writer);
    assert_eq!(space.get_weight(b"p").unwrap(), Some(w(7.0)));
    assert_eq!(space.weight_count().unwrap(), 1);

    let reader = space.new_reader(b"pqr", &()).unwrap();
    assert!(space.get_weight(b"p").is_ok());
    assert!(space.total_weight().is_ok());
    let error = space.set_weight(b"p", w(3.0)).unwrap_err();
    assert!(error.text().ends_with("read zipper (arity: 1) @ [112, 113, 114]\n"));
    assert!(space.set_weight(b"pqs", w(3.0)).is_ok());
    space.release_reader(reader);
    assert!(space.set_weight(b"p", w(3.0)).is_ok());
}

#[test]
fn operations_give_their_permissions_back() {
    let mut space = WeightedSpace::new();
    space.set_weight(b"p", w(1.0)).unwrap();
    space.add_weight(b"p", w(1.0)).unwrap();
    space.multiply_weight(b"p", w(1.0)).unwrap();
    space.get_weight(b"p").unwrap();
    space.total_weight().unwrap();
    space.weight_count().unwrap();
    assert!(space.new_writer(b"", &()).is_ok());
}

#[test]
fn several_permissions_at_once() {
    let mut space = WeightedSpace::new();
    let mut taken: Vec<WeightedSpaceWriter> = Vec::new();
    let outcome = space.new_multiple(|head| {
        taken.push(head.new_writer(b"a", &())?);
        taken.push(head.new_writer(b"b", &())?);
        Ok(())
    });
    assert!(outcome.is_ok());
    assert_eq!(taken.len(), 2);
    assert!(space.get_weight(b"a").is_err());
    assert!(space.get_weight(b"b").is_err());

    let mut more: Vec<WeightedSpaceWriter> = Vec::new();
    let outcome = space.new_multiple(|head| {
        more.push(head.new_writer(b"c", &())?);
        more.push(head.new_writer(b"ab", &())?);
        Ok(())
    });
    assert_eq!(outcome.unwrap_err().path(), b"ab");
    assert_eq!(more.len(), 1);
    for writer in taken {
        space.release_writer(writer);
    }
    for writer in more {
        assert_eq!(writer.path(), b"c");
        space.release_writer(writer);
    }
    assert!(space.new_writer(b"", &()).is_ok());
}

#[test]
fn readers_walk_what_lies_below_them() {
    let mut space = WeightedSpace::new();
    for (path, value) in [(b"a" as &[u8], 1.0), (b"b", 2.0), (b"ba", 3.0), (b"bab", 4.0), (b"bc", 5.0), (b"c", 6.0)] {
        space.set_weight(path, w(value)).unwrap();
    }
    let reader = space.new_reader(b"b", &()).unwrap();
    assert_eq!(reader.path(), b"b");
    {
        let mut zipper = space.read_zipper(&reader);
        assert_eq!(zipper.path(), b"");
        assert_eq!(zipper.origin_path(), b"b");
        assert_eq!(zipper.val().map(f), Some(2.0));
        let mut seen: Vec<(Vec<u8>, f64)> = Vec::new();
        while zipper.to_next_val() {
            let whole = zipper.origin_path().to_vec();
            assert_eq!(whole, [b"b" as &[u8], zipper.path()].concat());
            seen.push((zipper.path().to_vec(), f(zipper.val().unwrap())));
        }
        assert_eq!(
            seen,
            vec![(b"a".to_vec(), 3.0), (b"ab".to_vec(), 4.0), (b"c".to_vec(), 5.0)]
        );
        // the walk ends where it began
        assert_eq!(zipper.path(), b"");
        assert_eq!(zipper.origin_path(), b"b");
        assert!(zipper.to_next_val());
        assert_eq!(zipper.path(), b"a");
        assert_eq!(zipper.origin_path(), b"ba");
    }
    space.release_reader(reader);
    let reader = space.new_reader(b"bb", &()).unwrap();
    let mut zipper = space.read_zipper(&reader);
    assert_eq!(zipper.val(), None);
    assert!(!zipper.to_next_val());
}

#[test]
fn a_first_refusal_is_not_yet_the_answer() {
    let mut space = WeightedSpace::new();
    let writer = space.new_writer(b"a", &()).unwrap();
    assert!(matches!(space.attempt_writer(b"a", &(), Attempt::First), Settled::Wait(5)));
    assert!(matches!(space.attempt_reader(b"ab", &(), Attempt::First), Settled::Wait(5)));
    match space.attempt_writer(b"a", &(), Attempt::AfterSettling) {
        Settled::Answer(Err(error)) => assert!(error.text().ends_with("write zipper @ [97]\n")),
        _ => panic!("the second refusal is the answer"),
    }
    match space.attempt_reader(b"ab", &(), Attempt::AfterSettling) {
        Settled::Answer(Err(error)) => assert_eq!(error.path(), b"ab"),
        _ => panic!("the second refusal is the answer"),
    }
    space.release_writer(writer);
    match space.attempt_reader(b"ab", &(), Attempt::AfterSettling) {
        Settled::Answer(Ok(reader)) => space.release_reader(reader),
        _ => panic!("the path is free"),
    }
    match space.attempt_writer(b"a", &(), Attempt::First) {
        Settled::Answer(Ok(writer)) => space.release_writer(writer),
        _ => panic!("the path is free"),
    }
}

#[test]
fn settling_takes_five_milliseconds() {
    assert_eq!(SETTLE_MILLIS, 5);
    let refused: Result<u8, WeightedPermissionErr> =
        Err(WeightedPermissionErr::new(b"x", "taken".to_string()));
    assert!(matches!(settle(Attempt::First, refused), Settled::Wait(5)));
    assert!(matches!(settle(Attempt::First, Ok(3u8)), Settled::Answer(Ok(3))));
    assert!(matches!(settle(Attempt::AfterSettling, Ok(3u8)), Settled::Answer(Ok(3))));
}
