use raw::agentflow::config::Config;
use raw::agentflow::error::Error;
use raw::agentflow::log::civil_time;
use raw::agentflow::message::{Message, Role};
use raw::agentflow::model_error::Error as ModelError;
use raw::agentflow::web::{check_login, parse_token, LoginPayload};
use raw::agentflow::web_error::{ClientError, Error as WebError};

#[test]
fn roles_round_trip_through_numbers() {
    for role in [Role::System, Role::User, Role::Assistant, Role::Tool] {
        assert_eq!(Role::from_val(role.val()), Some(role));
    }
    assert_eq!(Role::User.val(), 1);
    assert_eq!(Role::from_val(4), None);
    let m = Message { role: Role::Tool, content: b"done".to_vec() };
    assert_eq!(m.clone().content, b"done".to_vec());
}

#[test]
fn errors_map_to_client_answers() {
    assert_eq!(
        Error::WebError(WebError::AuthFailNoAuthTokenCookie).client_status_and_error(),
        (403, ClientError::NO_AUTH)
    );
    assert_eq!(
        Error::WebError(WebError::AuthFailTokenWrongFormat).client_status_and_error(),
        (403, ClientError::NO_AUTH)
    );
    assert_eq!(
        Error::ModelError(ModelError::TicketDeleteFailedIdNotFound { id: 7 }).client_status_and_error(),
        (400, ClientError::INVALID_PARAMS)
    );
    assert_eq!(
        Error::WebError(WebError::LoginFail).client_status_and_error(),
        (500, ClientError::SERVICE_ERROR)
    );
    assert_eq!(
        Error::ConfigMissingEnv("X").client_status_and_error(),
        (500, ClientError::SERVICE_ERROR)
    );
    assert!(matches!(Error::from(WebError::LoginFail), Error::WebError(WebError::LoginFail)));
}

#[test]
fn config_needs_the_web_folder() {
    let c = Config::load_from(Some("web-folder/".to_string())).unwrap();
    assert_eq!(c.WEB_FOLDER, "web-folder/");
    assert!(matches!(Config::load_from(None), Err(Error::ConfigMissingEnv("SERVICE_WEB_FOLDER"))));
}

fn login(username: &str, pwd: &str) -> LoginPayload {
    LoginPayload { username: username.to_string(), pwd: pwd.to_string() }
}

#[test]
fn login_accepts_only_the_demo_user() {
    assert!(check_login(&login("demo1", "welcome")).is_ok());
    assert!(matches!(check_login(&login("demo1", "wrong")), Err(Error::WebError(WebError::LoginFail))));
    assert!(check_login(&login("demo", "welcome")).is_err());
}

#[test]
fn tokens_split_into_user_expiration_and_signature() {
    let (id, exp, sign) = parse_token("user-1.exp.sign").unwrap();
    assert_eq!((id, exp.as_str(), sign.as_str()), (1, "exp", "sign"));

    // The expiration takes every dot but the last.
    let (id, exp, sign) = parse_token("user-42.a.b.c").unwrap();
    assert_eq!((id, exp.as_str(), sign.as_str()), (42, "a.b", "c"));

    // A trailing dot stays with the signature.
    let (_, exp, sign) = parse_token("user-3.a.b.").unwrap();
    assert_eq!((exp.as_str(), sign.as_str()), ("a", "b."));

    // Only the first line counts.
    let (_, exp, sign) = parse_token("user-5.x.y\nz.w").unwrap();
    assert_eq!((exp.as_str(), sign.as_str()), ("x", "y"));

    let (_, exp, sign) = parse_token("user-9.é.ü").unwrap();
    assert_eq!((exp.as_str(), sign.as_str()), ("é", "ü"));

    for bad in ["", "user-", "user-.a.b", "usr-1.a.b", "user-1a.b.c", "user-1.a", "user-1..b", "user-1.a.", "user-99999999999999999999.a.b"] {
        assert!(
            matches!(parse_token(bad), Err(Error::WebError(WebError::AuthFailTokenWrongFormat))),
            "{bad:?}"
        );
    }
}

#[test]
fn civil_time_of_unix_timestamps() {
    let t = civil_time(0, 0);
    assert_eq!((t.year, t.month, t.day, t.hour, t.minute, t.second), (1970, 1, 1, 0, 0, 0));

    // 2000-02-29T12:34:56.789Z
    let t = civil_time(951_827_696, 789);
    assert_eq!((t.year, t.month, t.day, t.hour, t.minute, t.second, t.millis), (2000, 2, 29, 12, 34, 56, 789));

    // 2024-12-31T23:59:59Z
    let t = civil_time(1_735_689_599, 0);
    assert_eq!((t.year, t.month, t.day, t.hour, t.minute, t.second), (2024, 12, 31, 23, 59, 59));

    // 2100-03-01T00:00:00Z (2100 is not a leap year)
    let t = civil_time(4_107_542_400, 0);
    assert_eq!((t.year, t.month, t.day), (2100, 3, 1));

    let far = civil_time(u64::MAX, 999);
    assert!(far.year > 500_000_000_000);
    assert!(1 <= far.month && far.month <= 12);
}
