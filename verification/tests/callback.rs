use kipclip::callback::{parse_callback_url, CallbackError, CallbackKey};

#[test]
fn parses_loopback_callback_url() {
    let params = match parse_callback_url(
        "http://127.0.0.1:4000/oauth/callback?code=code-123&state=state-123&iss=https%3A%2F%2Fentryway.example",
    ) {
        Ok(params) => params,
        Err(error) => panic!("valid callback URL rejected: {error:?}"),
    };

    assert_eq!(params.code.as_str(), "code-123");
    assert_eq!(params.state.as_deref(), Some("state-123"));
    assert_eq!(params.iss.as_deref(), Some("https://entryway.example"));
}

#[test]
fn rejects_invalid_callback_urls() {
    assert!(parse_callback_url("https://example.com/oauth/callback?code=x&state=y").is_err());
    assert!(parse_callback_url("http://127.0.0.1:4000/oauth/callback?code=x").is_err());
    assert!(parse_callback_url("http://127.0.0.1:4000/oauth/callback?code=&state=y").is_err());
    assert!(parse_callback_url("http://127.0.0.1:4000/oauth/callback?code=x&state=").is_err());
}

#[test]
fn callback_errors_name_their_cause() {
    assert_eq!(parse_callback_url("not a url").unwrap_err(), CallbackError::InvalidUrl);
    assert_eq!(
        parse_callback_url("https://example.com/oauth/callback?code=x&state=y").unwrap_err(),
        CallbackError::NotLoopback
    );
    assert_eq!(
        parse_callback_url("http://127.0.0.1:4001/oauth/callback?code=x&state=y").unwrap_err(),
        CallbackError::NotLoopback
    );
    assert_eq!(
        parse_callback_url("http://127.0.0.1:4000/other?code=x&state=y").unwrap_err(),
        CallbackError::NotLoopback
    );
    assert_eq!(
        parse_callback_url("http://localhost:4000/oauth/callback?code=x&state=y").unwrap_err(),
        CallbackError::NotLoopback
    );
    assert_eq!(
        parse_callback_url("http://127.0.0.1:4000/oauth/callback?code=x").unwrap_err(),
        CallbackError::MissingState
    );
    assert_eq!(
        parse_callback_url("http://127.0.0.1:4000/oauth/callback?state=y").unwrap_err(),
        CallbackError::MissingCode
    );
    assert_eq!(
        parse_callback_url("http://127.0.0.1:4000/oauth/callback?code=&state=y").unwrap_err(),
        CallbackError::MissingCode
    );
}

#[test]
fn callback_duplicates_report_the_first_repeated_parameter() {
    assert_eq!(
        parse_callback_url("http://127.0.0.1:4000/oauth/callback?code=a&state=s&code=b").unwrap_err(),
        CallbackError::Duplicate(CallbackKey::Code)
    );
    assert_eq!(
        parse_callback_url("http://127.0.0.1:4000/oauth/callback?state=s&iss=i&iss=j&state=t").unwrap_err(),
        CallbackError::Duplicate(CallbackKey::Iss)
    );
    // A duplicate wins over a missing parameter.
    assert_eq!(
        parse_callback_url("http://127.0.0.1:4000/oauth/callback?state=&state=").unwrap_err(),
        CallbackError::Duplicate(CallbackKey::State)
    );
}

#[test]
fn callback_ignores_other_parameters_and_decodes_values() {
    let p = parse_callback_url("http://127.0.0.1:4000/oauth/callback?x=1&code=a+b&state=%41").unwrap();
    assert_eq!(p.code, "a b");
    assert_eq!(p.state.as_deref(), Some("A"));
    assert_eq!(p.iss, None);
}
