use accounting_system::auth::Claims;
use accounting_system::config::{AppConfig, SmtpConfig};
use accounting_system::error::{check_start_day, DomainError};
use accounting_system::models::{fallback_account_book, AccountBookDisplay};

fn config(host: &str, port: u16) -> AppConfig {
    AppConfig {
        database_url: "mysql://localhost/accounting".to_string(),
        host: host.to_string(),
        port,
        jwt_secret: "secret".to_string(),
        smtp: SmtpConfig {
            host: "smtp.example.com".to_string(),
            port: 587,
            username: String::new(),
            password: String::new(),
            from_email: String::new(),
        },
        app_url: "http://127.0.0.1:3000".to_string(),
        session_secret: "secret".to_string(),
    }
}

#[test]
fn bind_address_joins_host_and_port() {
    assert_eq!(config("127.0.0.1", 3000).bind_address(), "127.0.0.1:3000");
    assert_eq!(config("0.0.0.0", 80).bind_address(), "0.0.0.0:80");
    assert_eq!(config("localhost", 65535).bind_address(), "localhost:65535");
    assert_eq!(config("h", 0).bind_address(), "h:0");
}

#[test]
fn start_day_check_accepts_exactly_1_to_31() {
    assert_eq!(check_start_day(1), Ok(1));
    assert_eq!(check_start_day(31), Ok(31));
    assert_eq!(
        check_start_day(0),
        Err(DomainError::InvalidConfiguration { start_day: 0 })
    );
    assert_eq!(
        check_start_day(32),
        Err(DomainError::InvalidConfiguration { start_day: 32 })
    );
}

#[test]
fn claims_expire_one_day_after_issue() {
    let c = Claims::issue(7, "a@example.com".to_string(), 1_700_000_000);
    assert_eq!(c.sub, 7);
    assert_eq!(c.iat, 1_700_000_000);
    assert_eq!(c.exp, 1_700_000_000 + 86_400);
}

fn book(id: i64, name: &str) -> AccountBookDisplay {
    AccountBookDisplay {
        id,
        name: name.to_string(),
        description: String::new(),
        currency: "USD".to_string(),
    }
}

#[test]
fn fallback_prefers_remembered_book_then_first() {
    let books = vec![book(1, "home"), book(2, "travel")];
    assert_eq!(fallback_account_book(&books, Some(2)).unwrap().id, 2);
    assert_eq!(fallback_account_book(&books, Some(9)).unwrap().id, 1);
    assert_eq!(fallback_account_book(&books, None).unwrap().id, 1);
    assert!(fallback_account_book(&Vec::new(), Some(1)).is_none());
}
