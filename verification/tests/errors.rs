use weighted_space::conflict::{Conflict, IsTracking};
use weighted_space::errors::{
    refusal_text, CommandError, ExternalError, ServerPermissionErr, WeightedPermissionErr,
};
use weighted_space::space::WeightedSpace;

fn external(error: CommandError) -> ExternalError {
    let CommandError::External(external) = error;
    external
}

#[test]
fn errors_keep_their_path_and_message() {
    let error = WeightedPermissionErr::new(&[0, 7], "no".to_string());
    assert_eq!(error.path(), &[0, 7]);
    assert_eq!(error.text(), "no");
    let error = ServerPermissionErr::new(&[9], "never".to_string());
    assert_eq!(error.path(), &[9]);
    assert_eq!(error.text(), "never");
}

#[test]
fn conflicts_name_both_paths() {
    let expected = "conflicts with existing zipper: read zipper (arity: 3) @ [1]\n \
                    trying to take path: `(a b)` while `(a)` was already taken";
    let conflict = Conflict::new(IsTracking::ReadZipper(3), vec![1]);
    assert_eq!(conflict.path(), &[1]);
    let error = WeightedPermissionErr::from_conflict(conflict, &[1, 2], "(a b)", "(a)");
    assert_eq!(error.path(), &[1, 2]);
    assert_eq!(error.text(), expected);
    let conflict = Conflict::new(IsTracking::ReadZipper(3), vec![1]);
    let error = ServerPermissionErr::from_conflict(conflict, &[1, 2], "(a b)", "(a)");
    assert_eq!(error.path(), &[1, 2]);
    assert_eq!(error.text(), expected);
    let conflict = Conflict::new(IsTracking::WriteZipper, vec![]);
    assert_eq!(conflict.text(), "conflicts with existing zipper: write zipper @ []\n");
    let conflict = Conflict::new(IsTracking::ReadZipper(u32::MAX), vec![0, 10, 100]);
    assert_eq!(
        conflict.text(),
        "conflicts with existing zipper: read zipper (arity: 4294967295) @ [0, 10, 100]\n"
    );
}

#[test]
fn commands_are_answered_with_the_error() {
    for message in ["plain", "two\nlines", "a \"quoted\" word", "back\\slash", "tab\there \u{e9}\u{200b}", ""] {
        let error = WeightedPermissionErr::new(&[1, 22, 255], message.to_string());
        let expected = format!("Permission error accessing path: {error:?}");
        let answer = external(CommandError::from(error));
        assert_eq!(answer.status(), hyper::StatusCode::UNAUTHORIZED.as_u16());
        assert_eq!(answer.status(), 401);
        assert_eq!(answer.message(), expected);

        let error = ServerPermissionErr::new(&[], message.to_string());
        let expected = format!("Permission error accessing path: {error:?}");
        let answer = external(CommandError::from(error));
        assert_eq!(answer.status(), 401);
        assert_eq!(answer.message(), expected);
    }
    assert_eq!(
        refusal_text("WeightedPermissionErr", &[5], "\"why\""),
        "Permission error accessing path: WeightedPermissionErr { path: [5], message: \"why\" }"
    );
}

#[test]
fn refused_requests_become_answers() {
    let mut space = WeightedSpace::new();
    let _writer = space.new_writer(&[3], &()).unwrap();
    let error = space.get_weight(&[3, 4]).unwrap_err();
    let answer = external(CommandError::from(error));
    assert_eq!(
        answer.message(),
        "Permission error accessing path: WeightedPermissionErr { path: [3, 4], message: \
         \"Conflict trying to acquire read zipper at [3, 4], conflicts with existing zipper: \
         write zipper @ [3]\\n\" }"
    );
}

#[test]
fn conflicting_statuses_are_told() {
    let space = WeightedSpace::new();
    assert!(space.set_user_status(b"ab", Ok(())).is_ok());
    let answer = space.set_user_status(b"ab", Err("PathForbiddenTemporary".to_string()));
    let answer = external(answer.unwrap_err());
    assert_eq!(answer.status(), 401);
    assert_eq!(
        answer.message(),
        "Conflicting status: PathForbiddenTemporary at path: [97, 98] \
         when attempting to set new status"
    );
}
