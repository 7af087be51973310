use tjson::cli::{finalize_output, version_text};
use tjson::options::Eol;

#[test]
fn adds_final_newline_by_default() {
    assert_eq!(finalize_output("abc".to_string(), true, Eol::Lf), "abc\n");
}

#[test]
fn does_not_double_existing_final_newline() {
    assert_eq!(finalize_output("abc\n".to_string(), true, Eol::Lf), "abc\n");
}

#[test]
fn can_suppress_final_newline() {
    assert_eq!(finalize_output("abc".to_string(), false, Eol::Lf), "abc");
}

#[test]
fn adds_crlf_final_newline_when_eol_is_crlf() {
    assert_eq!(finalize_output("abc".to_string(), true, Eol::CrLf), "abc\r\n");
}

#[test]
fn reports_program_version() {
    assert_eq!(version_text(), format!("tjson-rs {}", "0.9.0"));
}
