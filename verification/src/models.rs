//! Plain records exchanged with the data store, and the dashboard's ledger
//! selection rule.

use vstd::prelude::*;

verus! {

/// The fields a new ledger is created with.
#[derive(Debug)]
pub struct CreateAccountBook {
    pub user_id: i64,
    pub name: String,
    pub description: Option<String>,
    pub currency: String,
    pub cycle_start_day: i32,
}

/// The fields a new category is created with.
#[derive(Debug)]
pub struct CreateCategory {
    pub account_book_id: i64,
    pub name: String,
    pub category_type: String,
    pub icon: Option<String>,
    pub color: Option<String>,
}

/// The fields a new user is created with.
#[derive(Debug)]
pub struct CreateUser {
    pub email: String,
    pub password_hash: String,
    pub verification_token: String,
}

/// A ledger as pages display it.
#[derive(Debug, Clone)]
pub struct AccountBookDisplay {
    pub id: i64,
    pub name: String,
    pub description: String,
    pub currency: String,
}

/// Picks the ledger the dashboard falls back to: the remembered one if it is
/// still in the user's list, else the first of the list, else none.
pub fn fallback_account_book<'a>(
    books: &'a Vec<AccountBookDisplay>,
    last_selected: Option<i64>,
) -> (r: Option<&'a AccountBookDisplay>)
    ensures
        match r {
            Some(b) => {
                &&& books@.len() > 0
                &&& if last_selected is Some && (exists|j: int|
                    0 <= j < books@.len() && (#[trigger] books@[j]).id == last_selected->Some_0) {
                    exists|j: int|
                        {
                            &&& 0 <= j < books@.len()
                            &&& (#[trigger] books@[j]).id == last_selected->Some_0
                            &&& *b == books@[j]
                            &&& forall|j2: int|
                                0 <= j2 < j ==> (#[trigger] books@[j2]).id != last_selected->Some_0
                        }
                } else {
                    *b == books@[0]
                }
            },
            None => books@.len() == 0,
        },
{
    if let Some(wanted) = last_selected {
        let mut j: usize = 0;
        while j < books.len()
            invariant
                last_selected == Some(wanted),
                0 <= j <= books@.len(),
                forall|j2: int| 0 <= j2 < j ==> (#[trigger] books@[j2]).id != wanted,
            decreases books.len() - j,
        {
            if books[j].id == wanted {
                proof {
                    let jw = j as int;
                    assert(0 <= jw < books@.len() && (#[trigger] books@[jw]).id == wanted && forall|
                        j2: int,
                    | 0 <= j2 < jw ==> (#[trigger] books@[j2]).id != wanted);
                }
                return Some(&books[j]);
            }
            j = j + 1;
        }
    }
    if books.len() > 0 {
        Some(&books[0])
    } else {
        None
    }
}

} // verus!
