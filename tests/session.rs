use aws_mfa_session::{mfa_section_names, mfa_serial, parse_code, session_prompt, CliError};

#[test]
fn prompt_names_user_and_account() {
    assert_eq!(session_prompt("alice", "123456789012"), "AWS:alice@123456789012 \\$ ");
    assert_eq!(session_prompt("", ""), "AWS:@ \\$ ");
}

#[test]
fn serial_prefers_the_named_device() {
    let r = mfa_serial(Some("arn:named".to_string()), Some("arn:listed".to_string()));
    assert_eq!(r.unwrap(), "arn:named");
}

#[test]
fn serial_falls_back_to_the_listed_device() {
    let r = mfa_serial(None, Some("arn:listed".to_string()));
    assert_eq!(r.unwrap(), "arn:listed");
}

#[test]
fn serial_without_any_device_is_no_mfa() {
    assert!(matches!(mfa_serial(None, None), Err(CliError::NoMFA)));
}

#[test]
fn default_profile_sections() {
    assert_eq!(
        mfa_section_names("default"),
        vec!["default".to_string(), "profile default".to_string(), "default".to_string()]
    );
}

#[test]
fn named_profile_sections() {
    assert_eq!(
        mfa_section_names("dev"),
        vec!["profile dev".to_string(), "dev".to_string()]
    );
}

#[test]
fn code_length_counts_bytes() {
    // Three two-byte Arabic-Indic digits make six bytes.
    assert_eq!(parse_code("\u{0663}\u{0664}\u{0665}").unwrap(), "\u{0663}\u{0664}\u{0665}");
    // Six such digits are twelve bytes.
    assert!(parse_code("\u{0663}\u{0664}\u{0665}\u{0663}\u{0664}\u{0665}").is_err());
    // A vulgar fraction is numeric; an accented letter is not.
    assert!(parse_code("1234\u{00bd}").is_ok());
    assert!(parse_code("1234\u{00e9}").is_err());
}
