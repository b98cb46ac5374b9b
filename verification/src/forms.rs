//! The HTML form bodies the HTTP layer decodes and hands over.

use vstd::prelude::*;

verus! {

/// A login form: an account name and its password.
pub struct Login {
    pub name: String,
    pub password: String,
}

/// A registration form; the password is typed twice.
pub struct Register {
    pub name: String,
    pub email: String,
    pub password: String,
    pub password_check: String,
}

/// The form that starts a new article.
pub struct AddArticle {
    pub title: String,
}

} // verus!
