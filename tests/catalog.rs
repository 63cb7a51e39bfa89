use clog::content::{encrypt_and_encode_content_to_base64, parse_base64_encrypted_data};
use clog::error::ClogError;
use clog::crypto::derive_key;
use clog::metadata::{add_folder, find_name, get_clean_metadata, init, Folder, Metadata};
use clog::ops::{add_file, make_new_clogfile, rotate_folders};
use clog::text::same_text;
use clog::validate::names_are_unique;

fn looks_like_a_date(name: &str) -> bool {
    let b = name.as_bytes();
    b.len() == 10
        && b[2] == b'/'
        && b[5] == b'/'
        && b.iter().enumerate().all(|(i, c)| i == 2 || i == 5 || c.is_ascii_digit())
}

#[test]
fn new_catalog_holds_todays_open_folder() {
    let m = init();
    assert_eq!(m.folders.len(), 1);
    assert!(looks_like_a_date(&m.folders[0].0));
    assert!(looks_like_a_date(&m.created_at));
    assert!(!m.folders[0].1.is_read_only());
    assert!(m.folders[0].1.files.is_empty());
}

#[test]
fn entries_are_stamped_with_a_time_of_day() {
    let clog = make_new_clogfile();
    let stamp = &clog.metadata.folders[0].1.files[0].1.created_at;
    // hh:mm:ss AM or PM
    let b = stamp.as_bytes();
    assert_eq!(b.len(), 11);
    assert_eq!((b[2], b[5], b[8]), (b':', b':', b' '));
    assert!(stamp.ends_with("AM") || stamp.ends_with("PM"));
}

#[test]
fn summary_keeps_names_and_times_only() {
    let mut clog = make_new_clogfile();
    rotate_folders(&mut clog, "05/05/2031");
    add_file(&mut clog, "note", "05/05/2031", "text", "05/05/2031").unwrap();
    let summary = get_clean_metadata(&clog.metadata);
    assert_eq!(summary.created_at, clog.metadata.created_at);
    assert_eq!(summary.folders.len(), 2);
    assert_eq!(summary.folders[1].0, "05/05/2031");
    assert_eq!(summary.folders[1].1.len(), 1);
    assert_eq!(summary.folders[1].1[0].0, "note");
    assert_eq!(summary.folders[1].1[0].1, clog.metadata.folders[1].1.files[0].1.created_at);
    assert_eq!(summary.folders[0].1[0].0, "Welcome");
}

#[test]
fn catalog_key_depends_on_password_and_salt() {
    let salt = [1u8; 16];
    let a = derive_key("password", &salt);
    assert_eq!(a.len(), 32);
    assert_eq!(a, derive_key("password", &salt));
    assert_ne!(a, derive_key("passwore", &salt));
    assert_ne!(a, derive_key("password", &[2u8; 16]));
}

#[test]
fn names_are_compared_by_characters() {
    assert!(same_text("01/01/2030", "01/01/2030"));
    assert!(!same_text("01/01/2030", "01/01/2031"));
    assert!(!same_text("a", "ab"));
    assert!(same_text("", ""));
    assert!(same_text("ünï", "ünï"));
}

#[test]
fn lookups_and_uniqueness() {
    let mut m = Metadata::new();
    add_folder(&mut m, "a").unwrap();
    add_folder(&mut m, "b").unwrap();
    assert_eq!(find_name(&m.folders, "b"), Some(1));
    assert_eq!(find_name(&m.folders, "c"), None);
    assert!(names_are_unique(&m.folders));
    m.folders.push(("a".to_string(), Folder::new()));
    assert!(!names_are_unique(&m.folders));
    let empty: Vec<(String, u8)> = Vec::new();
    assert!(names_are_unique(&empty));
}

#[test]
fn sealed_text_opens_only_with_its_key_and_nonce() {
    let key = [5u8; 32];
    let nonce = [6u8; 12];
    let text = encrypt_and_encode_content_to_base64(b"hello", &key, &nonce);
    assert_eq!(text.len(), 28);
    assert_ne!(text, b"aGVsbG8=".to_vec());
    assert!(text.iter().all(|b| b.is_ascii_alphanumeric() || *b == b'+' || *b == b'/' || *b == b'='));
    assert_eq!(parse_base64_encrypted_data(&text, &key, &nonce).unwrap(), b"hello".to_vec());
    assert!(matches!(parse_base64_encrypted_data(&text, &[7u8; 32], &nonce), Err(ClogError::Crypto)));
    assert!(matches!(parse_base64_encrypted_data(&text, &key, &[0u8; 12]), Err(ClogError::Crypto)));
    assert!(matches!(parse_base64_encrypted_data(b"not base64!", &key, &nonce), Err(ClogError::Format)));
    // the same key and nonce seal the same text the same way
    assert_eq!(text, encrypt_and_encode_content_to_base64(b"hello", &key, &nonce));
    assert_eq!(encrypt_and_encode_content_to_base64(b"", &key, &nonce).len(), 24);
}

fn one_entry_store(block: Vec<u8>, key: Vec<u8>, nonce: Vec<u8>) -> clog::content::Clog {
    let mut m = Metadata::new();
    add_folder(&mut m, "01/01/2030").unwrap();
    let record = clog::metadata::File {
        created_at: "01:00:00 AM".to_string(),
        offset: 72,
        length: block.len(),
        key,
        nonce,
    };
    m.folders[0].1.files.push(("e".to_string(), record));
    clog::content::Clog::from_parts(vec![0u8; 16], m, block).unwrap()
}

#[test]
fn plaintext_that_is_not_utf8_is_a_format_error() {
    let key = vec![1u8; 32];
    let nonce = vec![2u8; 12];
    let block = encrypt_and_encode_content_to_base64(&[0xff, 0xfe], &key, &nonce);
    let clog = one_entry_store(block, key, nonce);
    assert_eq!(
        clog::content::decrypt_content_from_file(&clog, "01/01/2030", "e").unwrap(),
        vec![0xff, 0xfe]
    );
    assert!(matches!(
        clog::ops::get_file_content(&clog, "e", "01/01/2030"),
        Err(ClogError::Format)
    ));
}

#[test]
fn content_that_is_not_base64_is_a_format_error() {
    let clog = one_entry_store(b"!!!!not-base64!!!!!!!!!!".to_vec(), vec![1u8; 32], vec![2u8; 12]);
    assert!(matches!(
        clog::content::decrypt_content_from_file(&clog, "01/01/2030", "e"),
        Err(ClogError::Format)
    ));
    assert!(matches!(
        clog::ops::get_file_content(&clog, "e", "01/01/2030"),
        Err(ClogError::Format)
    ));
}

#[test]
fn latest_folder_is_named_by_the_date_returned() {
    let mut m = Metadata::new();
    let date = m.add_latest_folder();
    assert!(looks_like_a_date(&date));
    assert_eq!(find_name(&m.folders, &date), Some(0));
    let again = m.add_latest_folder();
    if again == date {
        assert_eq!(m.folders.len(), 1);
    }
}
