use tinybase::auth_middleware::{check_secret, AuthDecision, CheckForSecret};

#[test]
fn matching_secret_is_forwarded() {
    let saved = Some("s3cr3t".to_string());
    let given = "s3cr3t".to_string();
    assert!(matches!(check_secret(&saved, &given), AuthDecision::Forward));
}

#[test]
fn wrong_secret_is_unauthorized() {
    let saved = Some("s3cr3t".to_string());
    let given = "guess".to_string();
    match check_secret(&saved, &given) {
        AuthDecision::Unauthorized(body) => assert_eq!(body, "You do not have the correct secret"),
        AuthDecision::Forward => panic!("a wrong secret was forwarded"),
    }
}

#[test]
fn secrets_compare_exactly() {
    let saved = Some("abc".to_string());
    assert!(matches!(check_secret(&saved, &"abc ".to_string()), AuthDecision::Unauthorized(_)));
    assert!(matches!(check_secret(&saved, &"ABC".to_string()), AuthDecision::Unauthorized(_)));
    assert!(matches!(check_secret(&Some("".to_string()), &"".to_string()), AuthDecision::Forward));
}

#[test]
fn middleware_wraps_the_service_and_checks() {
    let guard = CheckForSecret;
    let middleware = guard.new_transform(7u32);
    assert_eq!(middleware.service, 7u32);
    let saved = Some("k".to_string());
    assert!(matches!(middleware.check(&saved, &"k".to_string()), AuthDecision::Forward));
    assert!(matches!(middleware.check(&saved, &"j".to_string()), AuthDecision::Unauthorized(_)));
}

#[test]
fn missing_saved_secret_refuses_every_request() {
    for given in ["", "s3cr3t", "You do not have a secret saved in the .env file"] {
        match check_secret(&None, &given.to_string()) {
            AuthDecision::Unauthorized(body) => {
                assert_eq!(body, "You do not have a secret saved in the .env file")
            }
            AuthDecision::Forward => panic!("a request passed without a saved secret"),
        }
    }
    let middleware = CheckForSecret.new_transform(());
    assert!(matches!(middleware.check(&None, &"".to_string()), AuthDecision::Unauthorized(_)));
}
