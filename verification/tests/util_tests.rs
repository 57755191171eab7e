use minkv::error::OpError;
use minkv::time::{get_lifetime_millisec, get_millisec, sec_to_millisec};
use minkv::util::{filter_file, format_bytes_as_str};

#[test]
fn filter_file_matches_stem_and_extension() {
    assert!(filter_file(&b"data.3".to_vec(), &b"data".to_vec(), &b"3".to_vec()));
    assert!(filter_file(&b"hint.12".to_vec(), &b"hint".to_vec(), &b"12".to_vec()));
    // a different extension is refused
    assert!(!filter_file(&b"data.3".to_vec(), &b"data".to_vec(), &b"4".to_vec()));
    // a name whose stem does not start with the prefix is refused
    assert!(!filter_file(&b"lock.3".to_vec(), &b"data".to_vec(), &b"3".to_vec()));
    // a name without an extension is refused
    assert!(!filter_file(&b"data".to_vec(), &b"data".to_vec(), &b"3".to_vec()));
    // the extension is what follows the last dot
    assert!(filter_file(&b"data.old.7".to_vec(), &b"data".to_vec(), &b"7".to_vec()));
}

#[test]
fn format_bytes_renders_utf8_or_placeholder() {
    assert_eq!(format_bytes_as_str(b"hello"), "hello".to_string());
    assert_eq!(format_bytes_as_str(&[0xff, 0xfe]), "[invalid UTF-8]".to_string());
}

#[test]
fn time_helpers() {
    assert_eq!(sec_to_millisec(2), 2000);
    assert_eq!(sec_to_millisec(u64::MAX), u64::MAX);
    // a deadline in the past has no lifetime left
    assert_eq!(get_lifetime_millisec(0), 0);
    // a fresh deadline lies in the future
    let deadline = get_millisec(60_000);
    assert!(get_lifetime_millisec(deadline) > 0);
}

#[test]
fn error_messages() {
    assert_eq!(OpError::KeyNotFound.message(), "KeyNotFound");
    assert_eq!(OpError::ValueInvalid.message(), "ValueInvalid");
    assert_eq!(OpError::ReadSizeNotMatch.message(), "ReadSizeNotMatch");
    assert_eq!(OpError::LockFailed.message(), "LockFailed");
}
