use bindle_utils::{AuthMethod, BindleConnectionInfo};

#[test]
fn basic_auth_when_both_credentials_given() {
    let info = BindleConnectionInfo::new(
        "https://bindle.example/v1".to_string(),
        false,
        Some("user".to_string()),
        Some("pass".to_string()),
    );
    match info.auth {
        AuthMethod::HttpBasic { username, password } => {
            assert_eq!(username, "user");
            assert_eq!(password, "pass");
        }
        AuthMethod::NoAuth => panic!("expected basic authentication"),
    }
}

#[test]
fn no_auth_when_password_missing() {
    let info = BindleConnectionInfo::new(
        "https://bindle.example/v1".to_string(),
        false,
        Some("user".to_string()),
        None,
    );
    assert!(matches!(info.auth, AuthMethod::NoAuth));
}

#[test]
fn no_auth_when_username_missing() {
    let info = BindleConnectionInfo::new(
        "https://bindle.example/v1".to_string(),
        true,
        None,
        Some("pass".to_string()),
    );
    assert!(matches!(info.auth, AuthMethod::NoAuth));
}

#[test]
fn no_auth_when_no_credentials() {
    let info =
        BindleConnectionInfo::new("https://bindle.example/v1".to_string(), false, None, None);
    assert!(matches!(info.auth, AuthMethod::NoAuth));
}

#[test]
fn connection_fields_kept() {
    let info =
        BindleConnectionInfo::new("https://bindle.example/v1".to_string(), true, None, None);
    assert_eq!(info.base_url, "https://bindle.example/v1");
    assert!(info.allow_insecure);
}
