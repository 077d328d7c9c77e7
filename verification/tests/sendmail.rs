use task_registry::sendmail::{
    add_endpoint, delete_endpoint, empty_config, get_endpoint, get_endpoints, update_endpoint,
    ApiError, ApiErrorKind, Config, DeleteableSendmailProperty, SendmailConfig,
    SendmailConfigUpdater,
};

#[test]
fn error_kinds() {
    let mut config = empty_config();
    assert_eq!(
        get_endpoint(&config, "nope").unwrap_err().kind,
        ApiErrorKind::NotFound
    );
    add_sendmail_endpoint_for_test(&mut config, "dup").unwrap();
    assert_eq!(
        add_sendmail_endpoint_for_test(&mut config, "dup").unwrap_err().kind,
        ApiErrorKind::BadRequest
    );
    assert_eq!(
        update_endpoint(&mut config, "dup", &Default::default(), None, Some(&[1, 2, 3]))
            .unwrap_err()
            .kind,
        ApiErrorKind::BadRequest
    );
    assert_eq!(
        delete_endpoint(&mut config, "nope").unwrap_err().kind,
        ApiErrorKind::NotFound
    );
}

pub fn add_sendmail_endpoint_for_test(config: &mut Config, name: &str) -> Result<(), ApiError> {
    add_endpoint(
        config,
        &SendmailConfig {
            name: name.into(),
            mailto: vec!["user1@example.com".into()],
            from_address: Some("from@example.com".into()),
            author: Some("root".into()),
            comment: Some("Comment".into()),
        },
    )?;

    assert!(get_endpoint(config, name).is_ok());
    Ok(())
}

#[test]
fn test_sendmail_create() -> Result<(), ApiError> {
    let mut config = empty_config();

    assert_eq!(get_endpoints(&config)?.len(), 0);
    add_sendmail_endpoint_for_test(&mut config, "sendmail-endpoint")?;

    // Endpoints must have a unique name
    assert!(add_sendmail_endpoint_for_test(&mut config, "sendmail-endpoint").is_err());
    assert_eq!(get_endpoints(&config)?.len(), 1);
    Ok(())
}

#[test]
fn test_update_not_existing_returns_error() -> Result<(), ApiError> {
    let mut config = empty_config();

    assert!(update_endpoint(&mut config, "test", &Default::default(), None, None,).is_err());

    Ok(())
}

#[test]
fn test_update_invalid_digest_returns_error() -> Result<(), ApiError> {
    let mut config = empty_config();
    add_sendmail_endpoint_for_test(&mut config, "sendmail-endpoint")?;

    assert!(update_endpoint(
        &mut config,
        "sendmail-endpoint",
        &SendmailConfigUpdater {
            mailto: Some(vec!["user2@example.com".into(), "user3@example.com".into()]),
            from_address: Some("root@example.com".into()),
            author: Some("newauthor".into()),
            comment: Some("new comment".into()),
        },
        None,
        Some(&[0; 32]),
    )
    .is_err());

    Ok(())
}

#[test]
fn test_sendmail_update() -> Result<(), ApiError> {
    let mut config = empty_config();
    add_sendmail_endpoint_for_test(&mut config, "sendmail-endpoint")?;

    let digest = config.digest.clone();

    update_endpoint(
        &mut config,
        "sendmail-endpoint",
        &SendmailConfigUpdater {
            mailto: Some(vec!["user2@example.com".into(), "user3@example.com".into()]),
            from_address: Some("root@example.com".into()),
            author: Some("newauthor".into()),
            comment: Some("new comment".into()),
        },
        None,
        Some(&digest),
    )?;

    let endpoint = get_endpoint(&config, "sendmail-endpoint")?;

    assert_eq!(
        endpoint.mailto,
        vec![
            "user2@example.com".to_string(),
            "user3@example.com".to_string()
        ]
    );
    assert_eq!(endpoint.from_address, Some("root@example.com".to_string()));
    assert_eq!(endpoint.author, Some("newauthor".to_string()));
    assert_eq!(endpoint.comment, Some("new comment".to_string()));

    // Test property deletion
    update_endpoint(
        &mut config,
        "sendmail-endpoint",
        &Default::default(),
        Some(&[
            DeleteableSendmailProperty::FromAddress,
            DeleteableSendmailProperty::Author,
        ]),
        None,
    )?;

    let endpoint = get_endpoint(&config, "sendmail-endpoint")?;

    assert_eq!(endpoint.from_address, None);
    assert_eq!(endpoint.author, None);

    Ok(())
}

#[test]
fn test_sendmail_delete() -> Result<(), ApiError> {
    let mut config = empty_config();
    add_sendmail_endpoint_for_test(&mut config, "sendmail-endpoint")?;

    delete_endpoint(&mut config, "sendmail-endpoint")?;
    assert!(delete_endpoint(&mut config, "sendmail-endpoint").is_err());
    assert_eq!(get_endpoints(&config)?.len(), 0);

    Ok(())
}
