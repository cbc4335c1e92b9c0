use htmlgrep::flag::{parse, tokenize_str, Argument, ErrorKind};

fn args(list: &[&str]) -> Vec<String> {
    list.iter().map(|s| s.to_string()).collect()
}

#[test]
fn test_empty() {
    let empty: Vec<String> = vec![];
    let flags = parse(&empty).unwrap();
    assert!(flags.len() == 0);
}

#[test]
fn test_line() {
    let flags = parse(&args(&["+42"])).unwrap();
    assert_eq!(&Argument::Line(42), flags.get(0));
}

#[test]
fn test_flag() {
    let flags = parse(&args(&["-x"])).unwrap();
    assert_eq!(&Argument::Flag('x'), flags.get(0));
}

#[test]
fn test_option() {
    let flags = parse(&args(&["-fvalue"])).unwrap();
    assert_eq!(&Argument::Option('f', "value".to_string()), flags.get(0));
}

#[test]
fn test_free() {
    let flags = parse(&args(&["foo"])).unwrap();
    assert_eq!(&Argument::Free("foo".to_string()), flags.get(0));
}

#[test]
fn test_stdin() {
    let flags = parse(&args(&["-"])).unwrap();
    assert_eq!(&Argument::Stdin, flags.get(0));
}

#[test]
fn test_present() {
    let flags = parse(&args(&["-x", "-fvalue"])).unwrap();
    assert!(flags.present('x'));
    assert!(flags.present('f'));
    assert!(!flags.present('v'));
}

#[test]
fn test_first() {
    let flags = parse(&args(&["-x", "-ffoo", "-fbar"])).unwrap();
    assert_eq!(Some(&Argument::Flag('x')), flags.first('x'));
    assert_eq!(
        Some(&Argument::Option('f', "foo".to_string())),
        flags.first('f')
    );
    assert_eq!(None, flags.first('v'));
}

#[test]
fn test_line_overflow() {
    assert!(parse(&args(&["+9999999999999999999"])).is_err());
}

#[test]
fn overflow_kind_is_reported() {
    let err = parse(&args(&["+9999999999999999999"])).unwrap_err();
    assert_eq!(ErrorKind::Overflow, err.kind);
    assert_eq!("overflow", err.description());
}

#[test]
fn line_at_signed_64_bit_limit() {
    let flags = parse(&args(&["+9223372036854775807"])).unwrap();
    assert_eq!(&Argument::Line(9223372036854775807), flags.get(0));
}

#[test]
fn line_just_past_signed_64_bit_limit() {
    let err = parse(&args(&["+9223372036854775808"])).unwrap_err();
    assert_eq!(ErrorKind::Overflow, err.kind);
}

#[test]
fn line_zero() {
    let flags = parse(&args(&["+0", "+007"])).unwrap();
    assert_eq!(&Argument::Line(0), flags.get(0));
    assert_eq!(&Argument::Line(7), flags.get(1));
}

#[test]
fn plus_alone_is_free() {
    let tok = tokenize_str("+").unwrap();
    assert_eq!(Argument::Free("+".to_string()), tok);
}

#[test]
fn plus_with_non_digit_is_free() {
    let tok = tokenize_str("+4a").unwrap();
    assert_eq!(Argument::Free("+4a".to_string()), tok);
}

#[test]
fn empty_string_is_free() {
    let tok = tokenize_str("").unwrap();
    assert_eq!(Argument::Free(String::new()), tok);
}

#[test]
fn double_dash_is_free() {
    let tok = tokenize_str("--").unwrap();
    assert_eq!(Argument::Free("--".to_string()), tok);
}

#[test]
fn digit_after_dash_is_a_flag() {
    let tok = tokenize_str("-1").unwrap();
    assert_eq!(Argument::Flag('1'), tok);
}

#[test]
fn non_ascii_after_dash_is_free() {
    let tok = tokenize_str("-\u{e9}").unwrap();
    assert_eq!(Argument::Free("-\u{e9}".to_string()), tok);
}

#[test]
fn non_ascii_text_is_free() {
    let tok = tokenize_str("h\u{e9}llo").unwrap();
    assert_eq!(Argument::Free("h\u{e9}llo".to_string()), tok);
}

#[test]
fn option_value_keeps_every_character() {
    let tok = tokenize_str("-m10").unwrap();
    assert_eq!(Argument::Option('m', "10".to_string()), tok);
}

#[test]
fn as_str_returns_payloads_only() {
    assert_eq!(
        Some("value"),
        Argument::Option('f', "value".to_string()).as_str()
    );
    assert_eq!(Some("foo"), Argument::Free("foo".to_string()).as_str());
    assert_eq!(None, Argument::Flag('x').as_str());
    assert_eq!(None, Argument::Line(3).as_str());
    assert_eq!(None, Argument::Stdin.as_str());
}

#[test]
fn free_keeps_order_and_drops_other_variants() {
    let flags = parse(&args(&["a", "-x", "+1", "b", "-", "-fv", "c"])).unwrap();
    let free = flags.free();
    assert_eq!(vec!["a".to_string(), "b".to_string(), "c".to_string()], free);
}

#[test]
fn first_prefers_the_earliest_of_equal_letters() {
    let flags = parse(&args(&["-q", "-qlater", "-qlast"])).unwrap();
    assert_eq!(Some(&Argument::Flag('q')), flags.first('q'));
}
