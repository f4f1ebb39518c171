use wl::error::WlError;

#[test]
fn every_error_has_its_message() {
    assert_eq!(WlError::Io("disk gone".to_string()).message(), "I/O error: disk gone");
    assert_eq!(WlError::Db("Query returned no rows".to_string()).message(), "Database error: Query returned no rows");
    assert_eq!(
        WlError::Config("Failed to parse config.toml: bad".to_string()).message(),
        "Configuration error: Failed to parse config.toml: bad"
    );
    assert_eq!(WlError::NotFound("rockyou".to_string()).message(), "Wordlist not found: rockyou");
    assert_eq!(WlError::NoReposConfigured.message(), "No repos configured. Run: wl config add-repo <path>");
}

#[test]
fn failures_have_distinct_exit_codes() {
    assert_eq!(WlError::NotFound("x".to_string()).exit_code(), 1);
    assert_eq!(WlError::Usage("x".to_string()).exit_code(), 2);
    assert_eq!(WlError::NoReposConfigured.exit_code(), 2);
    assert_eq!(WlError::Io("x".to_string()).exit_code(), 3);
    assert_eq!(WlError::Db("x".to_string()).exit_code(), 3);
    assert_eq!(WlError::Config("x".to_string()).exit_code(), 3);
    assert_eq!(WlError::Usage("bad".to_string()).message(), "Usage error: bad");
}
