//! Plain request and response records the web layer exchanges with the
//! library: query strings, form bodies and the small JSON preference
//! endpoints' payloads.  Parsing and serialising them is the web layer's
//! concern.

use vstd::prelude::*;

verus! {

/// Flash messages shown on the ledger pages.
#[derive(Debug)]
pub struct AccountBookQuery {
    pub error: Option<String>,
    pub success: Option<String>,
}

/// The fields a ledger is updated with.
#[derive(Debug)]
pub struct UpdateAccountBook {
    pub name: String,
    pub description: Option<String>,
    pub currency: String,
    pub cycle_start_day: i32,
}

/// The reports page's parameters: an optional explicit date range, each
/// bound written as "YYYY-MM-DD".
#[derive(Debug)]
pub struct ReportsQuery {
    pub error: Option<String>,
    pub start_date: Option<String>,
    pub end_date: Option<String>,
}

/// Flash messages shown on the sign-in and registration pages.
#[derive(Debug)]
pub struct AuthQuery {
    pub error: Option<String>,
    pub success: Option<String>,
}

/// Flash messages shown on the category pages.
#[derive(Debug)]
pub struct CategoryQuery {
    pub error: Option<String>,
    pub success: Option<String>,
}

/// The fields a new category is submitted with.
#[derive(Debug)]
pub struct CategoryForm {
    pub name: String,
    pub category_type: String,
    pub icon: Option<String>,
    pub color: Option<String>,
}

/// The fields a category is updated with.
#[derive(Debug)]
pub struct UpdateCategoryForm {
    pub name: String,
    pub icon: Option<String>,
    pub color: Option<String>,
}

/// The dashboard's parameters.
#[derive(Debug)]
pub struct DashboardQuery {
    pub book_id: Option<i64>,
    pub success: Option<String>,
    pub error: Option<String>,
}

/// The transaction list's parameters.
#[derive(Debug)]
pub struct TransactionQuery {
    pub page: Option<i64>,
    pub success: Option<String>,
    pub error: Option<String>,
}

/// The fields a new transaction is submitted with; the amount and date come
/// as text and are parsed by the web layer.
#[derive(Debug)]
pub struct CreateTransactionForm {
    pub category_id: i64,
    pub amount: String,
    pub transaction_type: String,
    pub description: Option<String>,
    pub transaction_date: String,
    pub tags: Option<String>,
}

/// The fields a transaction is updated with.
#[derive(Debug)]
pub struct UpdateTransactionForm {
    pub category_id: i64,
    pub amount: String,
    pub description: Option<String>,
    pub transaction_date: String,
    pub tags: Option<String>,
}

/// The envelope of the JSON preference endpoints.
#[derive(Debug)]
pub struct ApiResponse<T> {
    pub success: bool,
    pub message: String,
    pub data: Option<T>,
}

/// Confirms which ledger was made the preferred one.
#[derive(Debug)]
pub struct PreferenceUpdateResponse {
    pub account_book_id: i64,
}

/// Asks for a ledger to become the preferred one.
#[derive(Debug)]
pub struct UpdatePreferenceRequest {
    pub account_book_id: i64,
}

} // verus!
