//! The errors that refused requests are answered with.
use vstd::prelude::*;
use vstd::slice::slice_to_vec;
use vstd::string::*;

use crate::conflict::{conflict_text, Conflict, ConflictView};
use crate::text::{append_path, path_text};

verus! {

/// The status code of a request that its sender has no permission for.
pub const UNAUTHORIZED: u16 = 401;

/// An error that goes back to the sender of a command.
#[derive(Debug)]
pub struct ExternalError {
    status: u16,
    message: String,
}

/// What an [`ExternalError`] tells.
pub struct ExternalErrorView {
    pub status: u16,
    pub message: Seq<char>,
}

impl View for ExternalError {
    type V = ExternalErrorView;

    closed spec fn view(&self) -> ExternalErrorView {
        ExternalErrorView { status: self.status, message: self.message@ }
    }
}

impl ExternalError {
    pub fn new(status: u16, message: String) -> (error: Self)
        ensures
            error@ == (ExternalErrorView { status, message: message@ }),
    {
        ExternalError { status, message }
    }

    /// The HTTP status code of the answer.
    pub fn status(&self) -> (status: u16)
        ensures
            status == self@.status,
    {
        self.status
    }

    /// The text of the answer.
    pub fn message(&self) -> (message: &str)
        ensures
            message@ == self@.message,
    {
        self.message.as_str()
    }
}

/// The failure of a command.
#[derive(Debug)]
pub enum CommandError {
    /// The sender of the command is told
    External(ExternalError),
}

/// What a permission error tells.
pub struct PermissionErrView {
    pub path: Seq<u8>,
    pub message: Seq<char>,
}

/// The message of a permission that could not be had because of a conflict.
pub open spec fn taken_message(
    conflict: ConflictView,
    nice_path: Seq<char>,
    nice_existing_path: Seq<char>,
) -> Seq<char> {
    conflict_text(conflict) + " trying to take path: `"@ + nice_path + "` while `"@
        + nice_existing_path + "` was already taken"@
}

fn taken_text(conflict: &Conflict, nice_path: &str, nice_existing_path: &str) -> (text: String)
    ensures
        text@ == taken_message(conflict@, nice_path@, nice_existing_path@),
{
    let mut text = conflict.text();
    text.append(" trying to take path: `");
    text.append(nice_path);
    text.append("` while `");
    text.append(nice_existing_path);
    text.append("` was already taken");
    text
}

/// A text in double quotes, with the escapes that the `Debug` form of a string has.
pub uninterp spec fn quoted(text: Seq<char>) -> Seq<char>;

/// The `Debug` form of a string, which `<str as std::fmt::Debug>::fmt` of the standard
/// library writes. Nothing is claimed of it but that it depends on the text alone.
#[verifier::external_body]
fn quote(text: &str) -> (form: String)
    ensures
        form@ == quoted(text@),
{
    format!("{:?}", text)
}

/// `hyper::StatusCode::UNAUTHORIZED`, as the number that `StatusCode::as_u16` gives.
#[verifier::external_body]
pub(crate) fn unauthorized() -> (status: u16)
    ensures
        status == UNAUTHORIZED,
{
    hyper::StatusCode::UNAUTHORIZED.as_u16()
}

/// The message that a command is answered with when a permission error of type `kind`,
/// with the path `path` and the message of the `Debug` form `form`, stopped it.
pub open spec fn refusal(kind: Seq<char>, path: Seq<u8>, form: Seq<char>) -> Seq<char> {
    "Permission error accessing path: "@ + kind + " { path: "@ + path_text(path) + ", message: "@
        + form + " }"@
}

/// Writes the message of [`refusal`].
pub fn refusal_text(kind: &str, path: &[u8], form: &str) -> (text: String)
    ensures
        text@ == refusal(kind@, path@, form@),
{
    let mut text = "Permission error accessing path: ".to_owned();
    text.append(kind);
    text.append(" { path: ");
    append_path(&mut text, path);
    text.append(", message: ");
    text.append(form);
    text.append(" }");
    text
}

/// A permission error of a weighted space.
#[derive(Debug)]
pub struct WeightedPermissionErr {
    path: Vec<u8>,
    message: String,
}

impl View for WeightedPermissionErr {
    type V = PermissionErrView;

    closed spec fn view(&self) -> PermissionErrView {
        PermissionErrView { path: self.path@, message: self.message@ }
    }
}

impl WeightedPermissionErr {
    pub fn new(path: &[u8], message: String) -> (error: Self)
        ensures
            error@ == (PermissionErrView { path: path@, message: message@ }),
    {
        Self { path: slice_to_vec(path), message }
    }

    /// The error of a request for `path` that met `conflict`. `nice_path` is the readable
    /// form of `path`, and `nice_existing_path` that of the path of the conflict.
    pub fn from_conflict(
        conflict: Conflict,
        path: &[u8],
        nice_path: &str,
        nice_existing_path: &str,
    ) -> (error: Self)
        ensures
            error@ == (PermissionErrView {
                path: path@,
                message: taken_message(conflict@, nice_path@, nice_existing_path@),
            }),
    {
        Self {
            path: slice_to_vec(path),
            message: taken_text(&conflict, nice_path, nice_existing_path),
        }
    }

    /// The path that was asked for.
    pub fn path(&self) -> (path: &[u8])
        ensures
            path@ == self@.path,
    {
        self.path.as_slice()
    }

    /// The text of the error.
    pub fn text(&self) -> (text: &str)
        ensures
            text@ == self@.message,
    {
        self.message.as_str()
    }
}

impl From<WeightedPermissionErr> for CommandError {
    /// The answer to a command that met the error.
    fn from(perm_err: WeightedPermissionErr) -> (error: Self)
        ensures
            error matches CommandError::External(external) && external@.status == UNAUTHORIZED
                && external@.message == refusal(
                "WeightedPermissionErr"@,
                perm_err@.path,
                quoted(perm_err@.message),
            ),
    {
        let form: String = quote(perm_err.message.as_str());
        CommandError::External(
            ExternalError::new(
                unauthorized(),
                refusal_text("WeightedPermissionErr", perm_err.path.as_slice(), form.as_str()),
            ),
        )
    }
}

/// The conversion is pinned down by the contract of `from`, over views: a string has no
/// other model.
impl vstd::std_specs::convert::FromSpecImpl<WeightedPermissionErr> for CommandError {
    open spec fn obeys_from_spec() -> bool {
        false
    }

    open spec fn from_spec(perm_err: WeightedPermissionErr) -> Self {
        arbitrary()
    }
}

/// A permission error of a server space.
#[derive(Debug)]
pub struct ServerPermissionErr {
    path: Vec<u8>,
    message: String,
}

impl View for ServerPermissionErr {
    type V = PermissionErrView;

    closed spec fn view(&self) -> PermissionErrView {
        PermissionErrView { path: self.path@, message: self.message@ }
    }
}

impl ServerPermissionErr {
    pub fn new(path: &[u8], message: String) -> (error: Self)
        ensures
            error@ == (PermissionErrView { path: path@, message: message@ }),
    {
        Self { path: slice_to_vec(path), message }
    }

    /// The error of a request for `path` that met `conflict`. `nice_path` is the readable
    /// form of `path`, and `nice_existing_path` that of the path of the conflict.
    pub fn from_conflict(
        conflict: Conflict,
        path: &[u8],
        nice_path: &str,
        nice_existing_path: &str,
    ) -> (error: Self)
        ensures
            error@ == (PermissionErrView {
                path: path@,
                message: taken_message(conflict@, nice_path@, nice_existing_path@),
            }),
    {
        Self {
            path: slice_to_vec(path),
            message: taken_text(&conflict, nice_path, nice_existing_path),
        }
    }

    /// The path that was asked for.
    pub fn path(&self) -> (path: &[u8])
        ensures
            path@ == self@.path,
    {
        self.path.as_slice()
    }

    /// The text of the error.
    pub fn text(&self) -> (text: &str)
        ensures
            text@ == self@.message,
    {
        self.message.as_str()
    }
}

impl From<ServerPermissionErr> for CommandError {
    /// The answer to a command that met the error.
    fn from(perm_err: ServerPermissionErr) -> (error: Self)
        ensures
            error matches CommandError::External(external) && external@.status == UNAUTHORIZED
                && external@.message == refusal(
                "ServerPermissionErr"@,
                perm_err@.path,
                quoted(perm_err@.message),
            ),
    {
        let form: String = quote(perm_err.message.as_str());
        CommandError::External(
            ExternalError::new(
                unauthorized(),
                refusal_text("ServerPermissionErr", perm_err.path.as_slice(), form.as_str()),
            ),
        )
    }
}

/// The conversion is pinned down by the contract of `from`, over views: a string has no
/// other model.
impl vstd::std_specs::convert::FromSpecImpl<ServerPermissionErr> for CommandError {
    open spec fn obeys_from_spec() -> bool {
        false
    }

    open spec fn from_spec(perm_err: ServerPermissionErr) -> Self {
        arbitrary()
    }
}

}
