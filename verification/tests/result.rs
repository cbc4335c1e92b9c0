use htmlgrep::result::Error;

#[test]
fn parse_error_description() {
    assert_eq!("invalid selector", Error::Parse.description());
}

#[test]
fn io_error_description_and_conversion() {
    let io_err = std::io::Error::from(std::io::ErrorKind::NotFound);
    let err = Error::from(io_err);
    assert!(matches!(err, Error::Io(_)));
    assert_eq!("i/o error", err.description());
}
