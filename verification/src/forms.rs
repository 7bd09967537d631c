//! The validated forms of the account pages.  The web layer parses and
//! validates them; the library holds their values.

use vstd::prelude::*;

verus! {

/// A registration: an email address and a password typed twice.
#[derive(Debug)]
pub struct RegisterForm {
    pub email: String,
    pub password: String,
    pub confirm_password: String,
}

/// A sign-in.
#[derive(Debug)]
pub struct LoginForm {
    pub email: String,
    pub password: String,
}

/// A ledger's settings: name, optional description, a three-letter currency
/// code and the billing cycle's start day (1-31).
#[derive(Debug)]
pub struct AccountBookForm {
    pub name: String,
    pub description: Option<String>,
    pub currency: String,
    pub cycle_start_day: i32,
}

/// A category's settings.
#[derive(Debug)]
pub struct CategoryForm {
    pub name: String,
    pub category_type: String,
    pub icon: Option<String>,
    pub color: Option<String>,
}

} // verus!
