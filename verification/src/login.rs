//! Who a client says it is.

use vstd::prelude::*;

use crate::frame::{Frame, FrameView};
use crate::text::same;

verus! {

/// What a Location presents in CONNECT.
#[derive(Debug, PartialEq, Eq)]
pub struct Login {
    pub user: String,
    pub password: String,
}

/// A [`Login`] by its characters.
pub struct LoginView {
    pub user: Seq<char>,
    pub password: Seq<char>,
}

impl View for Login {
    type V = LoginView;

    open spec fn view(&self) -> LoginView {
        LoginView { user: self.user@, password: self.password@ }
    }
}

impl Clone for Login {
    fn clone(&self) -> (copy: Self)
        ensures
            copy == *self,
    {
        Login { user: self.user.clone(), password: self.password.clone() }
    }
}

/// A login that may be missing, by its characters.
pub open spec fn login_view(login: Option<Login>) -> Option<LoginView> {
    match login {
        Some(login) => Some(login@),
        None => None,
    }
}

/// A login that may be missing, by its characters.
pub open spec fn login_ref_view(login: Option<&Login>) -> Option<LoginView> {
    match login {
        Some(login) => Some(login@),
        None => None,
    }
}

/// The login that a frame presents: a user and a password, neither alone.
pub open spec fn presented(frame: FrameView) -> Option<LoginView> {
    match (frame.header("login"@), frame.header("passcode"@)) {
        (Some(user), Some(password)) => Some(LoginView { user, password }),
        _ => None,
    }
}

/// Whether a frame presents what is expected, where anything is.
pub open spec fn authorised(frame: FrameView, expected: Option<LoginView>) -> bool {
    expected is Some ==> presented(frame) == expected
}

/// Whether a frame presents what is expected, where anything is.
pub(crate) fn is_authorised(frame: &Frame, expected: Option<&Login>) -> (yes: bool)
    ensures
        yes == authorised(frame@, login_ref_view(expected)),
{
    match expected {
        None => true,
        Some(expected) => match (frame.header("login"), frame.header("passcode")) {
            (Some(user), Some(password)) => same(user, expected.user.as_str()) && same(
                password,
                expected.password.as_str(),
            ),
            _ => false,
        },
    }
}

} // verus!
